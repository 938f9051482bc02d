//! Factoring a template's optional keys: groups of keys that no instance
//! holds two of, the instances each key covers, and those covered by none.

use vstd::prelude::*;

use crate::antiunify::{nats, Observations};
use crate::pen::{kv_put, kv_put_exec, kv_view};
use crate::report::id_addrs_view;

verus! {

/// `s` ascends strictly.
pub open spec fn strictly_ascending(s: Seq<usize>) -> bool {
    forall|i: int, j: int| 0 <= i < j < s.len() ==> s[i] < s[j]
}

/// The distinct elements of `v`, ascending.
pub fn sorted_set(v: &Vec<usize>) -> (res: Vec<usize>)
    ensures
        strictly_ascending(res@),
        res@.to_set() == v@.to_set(),
{
    let mut out: Vec<usize> = Vec::new();
    let mut i: usize = 0;
    while i < v.len()
        invariant
            i <= v@.len(),
            strictly_ascending(out@),
            out@.to_set() == v@.take(i as int).to_set(),
        decreases v@.len() - i,
    {
        let x = v[i];
        let mut p: usize = 0;
        while p < out.len() && out[p] < x
            invariant
                p <= out@.len(),
                forall|q: int| 0 <= q < p ==> out@[q] < x,
            decreases out@.len() - p,
        {
            p = p + 1;
        }
        let ghost o0 = out@;
        assert(v@.take(i + 1) =~= v@.take(i as int).push(x));
        proof {
            v@.take(i as int).lemma_push_to_set_commute(x);
        }
        if p < out.len() && out[p] == x {
            assert(o0.to_set().contains(x));
            assert(v@.take(i + 1).to_set() =~= v@.take(i as int).to_set().insert(x));
            assert(o0.to_set().insert(x) =~= o0.to_set());
        } else {
            out.insert(p, x);
            assert forall|a: int, b: int| 0 <= a < b < out@.len() implies out@[a] < out@[b] by {
                if b < p {
                    assert(out@[a] == o0[a] && out@[b] == o0[b]);
                } else if b == p {
                    assert(out@[a] == o0[a]);
                } else if a < p {
                    assert(out@[a] == o0[a] && out@[b] == o0[b - 1]);
                    assert(o0[p as int] >= x);
                    if b - 1 > p {
                        assert(o0[p as int] < o0[b - 1]);
                    }
                } else if a == p {
                    assert(out@[b] == o0[b - 1]);
                    assert(o0[p as int] != x);
                    if b - 1 > p {
                        assert(o0[p as int] < o0[b - 1]);
                    }
                } else {
                    assert(out@[a] == o0[a - 1] && out@[b] == o0[b - 1]);
                }
            }
            assert(out@.to_set() =~= o0.to_set().insert(x)) by {
                assert forall|y: usize| out@.to_set().contains(y) implies o0.to_set().insert(x).contains(y) by {
                    let q = choose|q: int| 0 <= q < out@.len() && out@[q] == y;
                    if q < p {
                        assert(o0[q] == y);
                    } else if q > p {
                        assert(o0[q - 1] == y);
                    }
                }
                assert forall|y: usize| o0.to_set().insert(x).contains(y) implies out@.to_set().contains(y) by {
                    if y == x {
                        assert(out@[p as int] == x);
                    } else {
                        let q = choose|q: int| 0 <= q < o0.len() && o0[q] == y;
                        if q < p {
                            assert(out@[q] == y);
                        } else {
                            assert(out@[q + 1] == y);
                        }
                    }
                }
            }
            assert(v@.take(i + 1).to_set() =~= v@.take(i as int).to_set().insert(x));
        }
        i = i + 1;
    }
    assert(v@.take(v@.len() as int) =~= v@);
    out
}

// ---------------------------------------------------------------------------
// Presences of optional keys
// ---------------------------------------------------------------------------

/// A key with the set of instances that hold it.
pub type Entry = (Seq<char>, Set<usize>);

/// Keys with their instance sets.
pub open spec fn entries_view(m: Seq<(String, Vec<usize>)>) -> Seq<Entry> {
    m.map_values(|e: (String, Vec<usize>)| (e.0@, e.1@.to_set()))
}

pub open spec fn sets_of(m: Seq<(Seq<char>, Seq<usize>)>) -> Seq<Entry> {
    m.map_values(|e: (Seq<char>, Seq<usize>)| (e.0, e.1.to_set()))
}

proof fn lemma_key_pos_sets(m: Seq<(Seq<char>, Seq<usize>)>, k: Seq<char>, i: int)
    ensures
        crate::pen::key_pos(sets_of(m), k, i) == crate::pen::key_pos(m, k, i),
        crate::pen::ins_pos(sets_of(m), k, i) == crate::pen::ins_pos(m, k, i),
    decreases m.len() - i,
{
    if 0 <= i < m.len() {
        lemma_key_pos_sets(m, k, i + 1);
    }
}

proof fn lemma_key_pos_range<W>(m: Seq<(Seq<char>, W)>, k: Seq<char>, i: int)
    requires
        0 <= i,
    ensures
        crate::pen::key_pos(m, k, i) matches Some(j) ==> i <= j < m.len(),
    decreases m.len() - i,
{
    if i < m.len() && m[i].0 != k {
        lemma_key_pos_range(m, k, i + 1);
    }
}

/// Putting a key commutes with reading the values as sets.
proof fn lemma_kv_put_sets(m: Seq<(Seq<char>, Seq<usize>)>, k: Seq<char>, v: Seq<usize>)
    ensures
        sets_of(kv_put(m, k, v)) == kv_put(sets_of(m), k, v.to_set()),
{
    lemma_key_pos_sets(m, k, 0);
    lemma_key_pos_range(m, k, 0);
    match crate::pen::key_pos(m, k, 0) {
        Some(i) => {
            assert(sets_of(m.update(i, (k, v))) =~= sets_of(m).update(i, (k, v.to_set())));
        },
        None => {
            let p = crate::pen::ins_pos(m, k, 0);
            lemma_ins_pos_range(m, k, 0);
            assert(sets_of(m.insert(p, (k, v))) =~= sets_of(m).insert(p, (k, v.to_set())));
        },
    }
}

proof fn lemma_ins_pos_range(m: Seq<(Seq<char>, Seq<usize>)>, k: Seq<char>, i: int)
    requires
        0 <= i <= m.len(),
    ensures
        i <= crate::pen::ins_pos(m, k, i) <= m.len(),
    decreases m.len() - i,
{
    if i < m.len() && !crate::text::chars_lt(k, m[i].0) {
        lemma_ins_pos_range(m, k, i + 1);
    }
}

/// The address the hole `id` has in a hole-address list; the last entry
/// for it wins.
pub open spec fn hole_address(av: Seq<(nat, Seq<char>)>, id: nat) -> Option<Seq<char>>
    decreases av.len(),
{
    if av.len() == 0 {
        None
    } else if av.last().0 == id {
        Some(av.last().1)
    } else {
        hole_address(av.drop_last(), id)
    }
}

/// The presences of the first `n` holes: each hole held by fewer than
/// `total` instances and with an address gives that address the set of
/// instances that hold it; a later hole at the same address replaces an
/// earlier one.
pub open spec fn presences_spec(obs: Seq<(Seq<nat>, Seq<crate::json::JVal>)>, av: Seq<(nat, Seq<char>)>, total: nat, n: nat) -> Seq<Entry>
    decreases n,
{
    if n == 0 || n > obs.len() {
        Seq::empty()
    } else {
        let prev = presences_spec(obs, av, total, (n - 1) as nat);
        let o = obs[n - 1];
        if o.0.len() < total {
            match hole_address(av, (n - 1) as nat) {
                Some(a) => kv_put(prev, a, o.0.map_values(|x: nat| x as usize).to_set()),
                None => prev,
            }
        } else {
            prev
        }
    }
}

fn hole_address_exec(addrs: &Vec<(usize, String)>, id: usize) -> (res: Option<String>)
    ensures
        match hole_address(id_addrs_view(addrs@), id as nat) {
            Some(a) => res matches Some(r) && r@ == a,
            None => res is None,
        },
{
    let ghost av = id_addrs_view(addrs@);
    let mut i: usize = addrs.len();
    assert(av.take(i as int) =~= av);
    while i > 0
        invariant
            i <= addrs@.len(),
            av == id_addrs_view(addrs@),
            hole_address(av, id as nat) == hole_address(av.take(i as int), id as nat),
        decreases i,
    {
        let ghost t = av.take(i as int);
        assert(t.drop_last() =~= av.take(i - 1));
        assert(t.last() == (addrs@[i - 1].0 as nat, addrs@[i - 1].1@));
        if addrs[i - 1].0 == id {
            return Some(addrs[i - 1].1.clone());
        }
        i = i - 1;
    }
    None
}

/// The optional keys of a template with the instances that hold each:
/// the holes held by fewer than `total` instances, by address.
pub fn optional_key_presences(observations: &Vec<Observations>, addresses: &Vec<(usize, String)>, total: usize) -> (res: Vec<(String, Vec<usize>)>)
    ensures
        entries_view(res@) == presences_spec(
            crate::antiunify::obs_view(observations@),
            id_addrs_view(addresses@),
            total as nat,
            observations@.len() as nat,
        ),
        forall|k: int| 0 <= k < res@.len() ==> strictly_ascending(#[trigger] res@[k].1@),
{
    let ghost ov = crate::antiunify::obs_view(observations@);
    let ghost av = id_addrs_view(addresses@);
    let mut out: Vec<(String, Vec<usize>)> = Vec::new();
    let mut id: usize = 0;
    assert(entries_view(out@) =~= presences_spec(ov, av, total as nat, 0));
    while id < observations.len()
        invariant
            id <= observations@.len(),
            ov == crate::antiunify::obs_view(observations@),
            av == id_addrs_view(addresses@),
            entries_view(out@) == presences_spec(ov, av, total as nat, id as nat),
            forall|k: int| 0 <= k < out@.len() ==> strictly_ascending(#[trigger] out@[k].1@),
        decreases observations@.len() - id,
    {
        let ob = &observations[id];
        assert(ov[id as int] == ob@);
        if ob.instance_indices.len() < total {
            match hole_address_exec(addresses, id) {
                Some(a) => {
                    let set = sorted_set(&ob.instance_indices);
                    let ghost o0 = out@;
                    proof {
                        assert(ob.instance_indices@.map_values(|x: usize| x as nat).map_values(|x: nat| x as usize) =~= ob.instance_indices@);
                        assert(ob@.0 == nats(ob.instance_indices@));
                        lemma_kv_put_sets(kv_view(o0), a@, set@);
                        assert(sets_of(kv_view(o0)) =~= entries_view(o0));
                    }
                    kv_put_exec(&mut out, a, set);
                    proof {
                        assert(sets_of(kv_view(out@)) =~= entries_view(out@));
                        assert forall|k: int| 0 <= k < out@.len() implies strictly_ascending(#[trigger] out@[k].1@) by {
                            assert(kv_view(out@)[k] == (out@[k].0@, out@[k].1@));
                            let kv = kv_put(kv_view(o0), a@, set@);
                            assert(kv[k].1 == out@[k].1@);
                            lemma_kv_put_values(kv_view(o0), a@, set@, k);
                            if kv[k].1 != set@ {
                                let q = choose|q: int| 0 <= q < o0.len() && kv_view(o0)[q].1 == kv[k].1;
                                assert(kv_view(o0)[q] == (o0[q].0@, o0[q].1@));
                            }
                        }
                    }
                },
                None => {},
            }
        }
        id = id + 1;
    }
    out
}

/// Every value of `kv_put(m, k, v)` is `v` or a value of `m`.
proof fn lemma_kv_put_values(m: Seq<(Seq<char>, Seq<usize>)>, k: Seq<char>, v: Seq<usize>, j: int)
    requires
        0 <= j < kv_put(m, k, v).len(),
    ensures
        kv_put(m, k, v)[j].1 == v || exists|q: int| 0 <= q < m.len() && m[q].1 == kv_put(m, k, v)[j].1,
{
    lemma_key_pos_range(m, k, 0);
    match crate::pen::key_pos(m, k, 0) {
        Some(i) => {
            if j != i {
                assert(kv_put(m, k, v)[j] == m[j]);
                assert(m[j].1 == kv_put(m, k, v)[j].1);
            }
        },
        None => {
            let p = crate::pen::ins_pos(m, k, 0);
            lemma_ins_pos_range(m, k, 0);
            if j < p {
                assert(kv_put(m, k, v)[j] == m[j]);
                assert(m[j].1 == kv_put(m, k, v)[j].1);
            } else if j > p {
                assert(kv_put(m, k, v)[j] == m[j - 1]);
                assert(m[j - 1].1 == kv_put(m, k, v)[j].1);
            }
        },
    }
}

// ---------------------------------------------------------------------------
// Factors: groups of keys no instance holds two of
// ---------------------------------------------------------------------------

/// `x` inserted before the first entry with a smaller set: entries stay
/// ordered by descending set size, ties in arrival order.
pub open spec fn insert_by_size(s: Seq<Entry>, x: Entry) -> Seq<Entry>
    decreases s.len(),
{
    if s.len() == 0 {
        seq![x]
    } else if s[0].1.len() < x.1.len() {
        seq![x] + s
    } else {
        seq![s[0]] + insert_by_size(s.drop_first(), x)
    }
}

/// The entries ordered by descending set size, ties in their order.
pub open spec fn by_size_desc(s: Seq<Entry>) -> Seq<Entry>
    decreases s.len(),
{
    if s.len() == 0 {
        s
    } else {
        insert_by_size(by_size_desc(s.drop_last()), s.last())
    }
}

/// `c`'s instances are disjoint from those of every entry of `group`.
pub open spec fn compatible(group: Seq<Entry>, c: Entry) -> bool {
    forall|j: int| 0 <= j < group.len() ==> (#[trigger] group[j]).1.disjoint(c.1)
}

/// Scanning the candidates in order, each compatible one joins the group;
/// the group and the candidates left over.
pub open spec fn absorb(group: Seq<Entry>, cands: Seq<Entry>) -> (Seq<Entry>, Seq<Entry>)
    decreases cands.len(),
{
    if cands.len() == 0 {
        (group, Seq::empty())
    } else if compatible(group, cands[0]) {
        absorb(group.push(cands[0]), cands.drop_first())
    } else {
        let r = absorb(group, cands.drop_first());
        (r.0, seq![cands[0]] + r.1)
    }
}

pub proof fn lemma_absorb_len(group: Seq<Entry>, cands: Seq<Entry>)
    ensures
        absorb(group, cands).1.len() <= cands.len(),
        absorb(group, cands).0.len() + absorb(group, cands).1.len() == group.len() + cands.len(),
    decreases cands.len(),
{
    if cands.len() > 0 {
        if compatible(group, cands[0]) {
            lemma_absorb_len(group.push(cands[0]), cands.drop_first());
        } else {
            lemma_absorb_len(group, cands.drop_first());
        }
    }
}

/// Greedy grouping: the first remaining entry seeds a group that absorbs
/// every compatible entry after it; groups of two or more are kept.
pub open spec fn greedy(rem: Seq<Entry>) -> Seq<Seq<Entry>>
    decreases rem.len(),
{
    if rem.len() == 0 {
        Seq::empty()
    } else {
        proof {
            lemma_absorb_len(seq![rem[0]], rem.drop_first());
        }
        let r = absorb(seq![rem[0]], rem.drop_first());
        let tail = greedy(r.1);
        if r.0.len() >= 2 {
            seq![r.0] + tail
        } else {
            tail
        }
    }
}

pub open spec fn keys_of(g: Seq<Entry>) -> Seq<Seq<char>> {
    g.map_values(|e: Entry| e.0)
}

/// The factors of a set of presences: the keys of each greedy group, the
/// entries taken largest set first.
pub open spec fn factors_spec(presences: Seq<Entry>) -> Seq<Seq<Seq<char>>> {
    greedy(by_size_desc(presences)).map_values(|g: Seq<Entry>| keys_of(g))
}

fn disjoint_exec(a: &Vec<usize>, b: &Vec<usize>) -> (res: bool)
    ensures
        res == a@.to_set().disjoint(b@.to_set()),
{
    let mut i: usize = 0;
    while i < a.len()
        invariant
            i <= a@.len(),
            forall|p: int, q: int| 0 <= p < i && 0 <= q < b@.len() ==> a@[p] != b@[q],
        decreases a@.len() - i,
    {
        let mut j: usize = 0;
        while j < b.len()
            invariant
                j <= b@.len(),
                i < a@.len(),
                forall|p: int, q: int| 0 <= p < i && 0 <= q < b@.len() ==> a@[p] != b@[q],
                forall|q: int| 0 <= q < j ==> a@[i as int] != b@[q],
            decreases b@.len() - j,
        {
            if a[i] == b[j] {
                assert(a@.to_set().contains(a@[i as int]) && b@.to_set().contains(b@[j as int]));
                return false;
            }
            j = j + 1;
        }
        i = i + 1;
    }
    assert forall|x: usize| a@.to_set().contains(x) implies !b@.to_set().contains(x) by {
        let p = choose|p: int| 0 <= p < a@.len() && a@[p] == x;
        if b@.to_set().contains(x) {
            let q = choose|q: int| 0 <= q < b@.len() && b@[q] == x;
            assert(a@[p] != b@[q]);
        }
    }
    true
}

fn compatible_exec(group: &Vec<(String, Vec<usize>)>, c: &(String, Vec<usize>)) -> (res: bool)
    ensures
        res == compatible(entries_view(group@), (c.0@, c.1@.to_set())),
{
    let mut j: usize = 0;
    while j < group.len()
        invariant
            j <= group@.len(),
            forall|q: int| 0 <= q < j ==> (#[trigger] entries_view(group@)[q]).1.disjoint(c.1@.to_set()),
        decreases group@.len() - j,
    {
        if !disjoint_exec(&group[j].1, &c.1) {
            assert(entries_view(group@)[j as int].1 == group@[j as int].1@.to_set());
            return false;
        }
        j = j + 1;
    }
    true
}

pub open spec fn no_dups_sets(m: Seq<(String, Vec<usize>)>) -> bool {
    forall|k: int| 0 <= k < m.len() ==> (#[trigger] m[k]).1@.no_duplicates()
}

/// Groups of optional keys whose instance sets are pairwise disjoint:
/// taking the keys largest set first, each key not yet grouped seeds a
/// group that every later compatible key joins; groups of one are dropped.
/// Each set is given without repeats.
pub fn find_factors(presences: &Vec<(String, Vec<usize>)>) -> (res: Vec<Vec<String>>)
    requires
        no_dups_sets(presences@),
    ensures
        res@.map_values(|g: Vec<String>| g@.map_values(|k: String| k@)) == factors_spec(entries_view(presences@)),
{
    // Order by descending set size, ties in order.
    let mut remaining: Vec<(String, Vec<usize>)> = Vec::new();
    let mut i: usize = 0;
    while i < presences.len()
        invariant
            i <= presences@.len(),
            no_dups_sets(presences@),
            no_dups_sets(remaining@),
            entries_view(remaining@) == by_size_desc(entries_view(presences@.take(i as int))),
        decreases presences@.len() - i,
    {
        let x = (presences[i].0.clone(), presences[i].1.clone());
        let ghost xv: Entry = (x.0@, x.1@.to_set());
        proof {
            assert(presences@[i as int].1@.no_duplicates());
            x.1@.unique_seq_to_set();
        }
        let mut p: usize = 0;
        assert(entries_view(remaining@).skip(0) =~= entries_view(remaining@));
        assert(entries_view(remaining@).take(0) + insert_by_size(entries_view(remaining@), xv) =~= insert_by_size(entries_view(remaining@), xv));
        while p < remaining.len() && !(remaining[p].1.len() < x.1.len())
            invariant
                p <= remaining@.len(),
                no_dups_sets(remaining@),
                x.1@.no_duplicates(),
                xv == (x.0@, x.1@.to_set()),
                insert_by_size(entries_view(remaining@), xv) == entries_view(remaining@).take(p as int)
                    + insert_by_size(entries_view(remaining@).skip(p as int), xv),
            decreases remaining@.len() - p,
        {
            let ghost rv = entries_view(remaining@);
            proof {
                remaining@[p as int].1@.unique_seq_to_set();
                x.1@.unique_seq_to_set();
                assert(rv.skip(p as int)[0] == rv[p as int]);
                assert(rv.skip(p as int).drop_first() =~= rv.skip(p + 1));
                assert(rv.take(p + 1) =~= rv.take(p as int).push(rv[p as int]));
            }
            p = p + 1;
        }
        let ghost r0 = entries_view(remaining@);
        let ghost rem0 = remaining@;
        proof {
            if p < remaining@.len() {
                remaining@[p as int].1@.unique_seq_to_set();
                assert(r0.skip(p as int)[0] == r0[p as int]);
            } else {
                assert(r0.skip(p as int) =~= Seq::<Entry>::empty());
            }
            assert(presences@.take(i + 1).drop_last() =~= presences@.take(i as int));
            assert(entries_view(presences@.take(i + 1)).drop_last() =~= entries_view(presences@.take(i as int)));
            assert(entries_view(presences@.take(i + 1)).last() == xv);
        }
        remaining.insert(p, x);
        proof {
            assert(entries_view(remaining@) =~= r0.take(p as int) + seq![xv] + r0.skip(p as int));
            if p < r0.len() {
                assert(insert_by_size(r0.skip(p as int), xv) == seq![xv] + r0.skip(p as int));
            } else {
                assert(insert_by_size(r0.skip(p as int), xv) == seq![xv]);
            }
            assert(entries_view(remaining@) =~= insert_by_size(r0, xv));
            assert forall|k: int| 0 <= k < remaining@.len() implies (#[trigger] remaining@[k]).1@.no_duplicates() by {
                if k < p {
                    assert(remaining@[k] == rem0[k]);
                } else if k > p {
                    assert(remaining@[k] == rem0[k - 1]);
                }
            }
        }
        i = i + 1;
    }
    assert(presences@.take(presences@.len() as int) =~= presences@);
    // Greedy grouping.
    let mut out: Vec<Vec<String>> = Vec::new();
    let ghost start = entries_view(remaining@);
    while remaining.len() > 0
        invariant
            out@.map_values(|g: Vec<String>| g@.map_values(|k: String| k@)) + greedy(entries_view(remaining@)).map_values(
                |g: Seq<Entry>| keys_of(g),
            ) == greedy(start).map_values(|g: Seq<Entry>| keys_of(g)),
        decreases remaining@.len(),
    {
        let ghost r0 = entries_view(remaining@);
        let seed = remaining.remove(0);
        let mut group: Vec<(String, Vec<usize>)> = vec![seed];
        let ghost target = absorb(seq![r0[0]], r0.drop_first());
        proof {
            assert(entries_view(group@) =~= seq![r0[0]]);
            assert(entries_view(remaining@) =~= r0.drop_first());
            assert(entries_view(remaining@).take(0) + absorb(entries_view(group@), entries_view(remaining@).skip(0)).1 =~= target.1) by {
                assert(entries_view(remaining@).skip(0) =~= entries_view(remaining@));
            }
            assert(entries_view(remaining@).skip(0) =~= entries_view(remaining@));
        }
        let mut j: usize = 0;
        while j < remaining.len()
            invariant
                j <= remaining@.len(),
                absorb(entries_view(group@), entries_view(remaining@).skip(j as int)).0 == target.0,
                entries_view(remaining@).take(j as int) + absorb(entries_view(group@), entries_view(remaining@).skip(j as int)).1
                    == target.1,
            decreases remaining@.len() - j,
        {
            let ghost gv = entries_view(group@);
            let ghost rv = entries_view(remaining@);
            let ghost c = rv[j as int];
            proof {
                assert(rv.skip(j as int)[0] == c);
                assert(rv.skip(j as int).drop_first() =~= rv.skip(j + 1));
            }
            if compatible_exec(&group, &remaining[j]) {
                let e = remaining.remove(j);
                group.push(e);
                proof {
                    assert(entries_view(group@) =~= gv.push(c));
                    assert(entries_view(remaining@) =~= rv.take(j as int) + rv.skip(j + 1));
                    assert(entries_view(remaining@).take(j as int) =~= rv.take(j as int));
                    assert(entries_view(remaining@).skip(j as int) =~= rv.skip(j + 1));
                }
            } else {
                proof {
                    assert(rv.take(j + 1) =~= rv.take(j as int) + seq![c]);
                }
                j = j + 1;
            }
        }
        proof {
            assert(entries_view(remaining@).skip(j as int) =~= Seq::<Entry>::empty());
            assert(entries_view(remaining@).take(j as int) =~= entries_view(remaining@));
            assert(entries_view(group@) == target.0);
            assert(entries_view(remaining@) == target.1);
            lemma_absorb_len(seq![r0[0]], r0.drop_first());
            assert(entries_view(remaining@).len() == remaining@.len());
            assert(greedy(r0) == if target.0.len() >= 2 {
                seq![target.0] + greedy(target.1)
            } else {
                greedy(target.1)
            });
        }
        if group.len() >= 2 {
            let mut keys: Vec<String> = Vec::new();
            let mut q: usize = 0;
            while q < group.len()
                invariant
                    q <= group@.len(),
                    keys@.map_values(|k: String| k@) == keys_of(entries_view(group@)).take(q as int),
                decreases group@.len() - q,
            {
                keys.push(group[q].0.clone());
                proof {
                    assert(keys_of(entries_view(group@)).take(q + 1) =~= keys_of(entries_view(group@)).take(q as int).push(group@[q as int].0@));
                    assert(keys@.map_values(|k: String| k@) =~= keys_of(entries_view(group@)).take(q + 1));
                }
                q = q + 1;
            }
            let ghost o0 = out@.map_values(|g: Vec<String>| g@.map_values(|k: String| k@));
            proof {
                assert(keys_of(entries_view(group@)).take(group@.len() as int) =~= keys_of(entries_view(group@)));
            }
            out.push(keys);
            proof {
                assert(out@.map_values(|g: Vec<String>| g@.map_values(|k: String| k@)) =~= o0.push(keys_of(target.0)));
                assert((seq![target.0] + greedy(target.1)).map_values(|g: Seq<Entry>| keys_of(g)) =~= seq![keys_of(target.0)] + greedy(target.1).map_values(|g: Seq<Entry>| keys_of(g)));
                assert(o0.push(keys_of(target.0)) + greedy(target.1).map_values(|g: Seq<Entry>| keys_of(g)) =~= o0 + (seq![keys_of(target.0)] + greedy(target.1).map_values(|g: Seq<Entry>| keys_of(g))));
            }
        }
    }
    proof {
        assert(greedy(entries_view(remaining@)) =~= Seq::<Seq<Entry>>::empty());
        assert(out@.map_values(|g: Vec<String>| g@.map_values(|k: String| k@)) + Seq::<Seq<Seq<char>>>::empty() =~= out@.map_values(|g: Vec<String>| g@.map_values(|k: String| k@)));
    }
    out
}

// ---------------------------------------------------------------------------
// What every factor is
// ---------------------------------------------------------------------------

pub open spec fn pairwise_disjoint(g: Seq<Entry>) -> bool {
    forall|a: int, b: int| 0 <= a < b < g.len() ==> (#[trigger] g[a]).1.disjoint((#[trigger] g[b]).1)
}

proof fn lemma_absorb_facts(group: Seq<Entry>, cands: Seq<Entry>)
    requires
        pairwise_disjoint(group),
    ensures
        pairwise_disjoint(absorb(group, cands).0),
        absorb(group, cands).0.len() >= group.len(),
        forall|e: Entry| #[trigger] absorb(group, cands).0.contains(e) ==> group.contains(e) || cands.contains(e),
        forall|e: Entry| #[trigger] absorb(group, cands).1.contains(e) ==> cands.contains(e),
    decreases cands.len(),
{
    if cands.len() > 0 {
        let c = cands[0];
        let rest = cands.drop_first();
        if compatible(group, c) {
            let g2 = group.push(c);
            assert forall|a: int, b: int| 0 <= a < b < g2.len() implies (#[trigger] g2[a]).1.disjoint((#[trigger] g2[b]).1) by {
                if b < group.len() {
                    assert(g2[a] == group[a] && g2[b] == group[b]);
                } else {
                    assert(g2[a] == group[a] && g2[b] == c);
                }
            }
            lemma_absorb_facts(g2, rest);
            assert forall|e: Entry| #[trigger] absorb(group, cands).0.contains(e) implies group.contains(e) || cands.contains(e) by {
                if g2.contains(e) {
                    let q = choose|q: int| 0 <= q < g2.len() && g2[q] == e;
                    if q < group.len() {
                        assert(group[q] == e);
                    } else {
                        assert(cands[0] == e);
                    }
                } else {
                    let q = choose|q: int| 0 <= q < rest.len() && rest[q] == e;
                    assert(cands[q + 1] == e);
                }
            }
            assert forall|e: Entry| #[trigger] absorb(group, cands).1.contains(e) implies cands.contains(e) by {
                let q = choose|q: int| 0 <= q < rest.len() && rest[q] == e;
                assert(cands[q + 1] == e);
            }
        } else {
            lemma_absorb_facts(group, rest);
            let r = absorb(group, rest);
            assert forall|e: Entry| #[trigger] absorb(group, cands).0.contains(e) implies group.contains(e) || cands.contains(e) by {
                if !group.contains(e) {
                    let q = choose|q: int| 0 <= q < rest.len() && rest[q] == e;
                    assert(cands[q + 1] == e);
                }
            }
            assert forall|e: Entry| #[trigger] absorb(group, cands).1.contains(e) implies cands.contains(e) by {
                let full = seq![c] + r.1;
                let q = choose|q: int| 0 <= q < full.len() && full[q] == e;
                if q == 0 {
                    assert(cands[0] == e);
                } else {
                    assert(r.1[q - 1] == e);
                    assert(r.1.contains(e));
                    let q2 = choose|q2: int| 0 <= q2 < rest.len() && rest[q2] == e;
                    assert(cands[q2 + 1] == e);
                }
            }
        }
    }
}

proof fn lemma_greedy_facts(rem: Seq<Entry>)
    ensures
        forall|g: int|
            0 <= g < greedy(rem).len() ==> (#[trigger] greedy(rem)[g]).len() >= 2 && pairwise_disjoint(
                greedy(rem)[g],
            ) && forall|e: Entry| greedy(rem)[g].contains(e) ==> rem.contains(e),
    decreases rem.len(),
{
    if rem.len() > 0 {
        let seed = seq![rem[0]];
        let cands = rem.drop_first();
        lemma_absorb_len(seed, cands);
        lemma_absorb_facts(seed, cands);
        let r = absorb(seed, cands);
        lemma_greedy_facts(r.1);
        let tail = greedy(r.1);
        assert forall|e: Entry| seed.contains(e) || cands.contains(e) implies rem.contains(e) by {
            if seed.contains(e) {
                assert(seed[0] == e);
            } else {
                let q = choose|q: int| 0 <= q < cands.len() && cands[q] == e;
                assert(rem[q + 1] == e);
            }
        }
        assert forall|g: int| 0 <= g < greedy(rem).len() implies (#[trigger] greedy(rem)[g]).len() >= 2 && pairwise_disjoint(
            greedy(rem)[g],
        ) && forall|e: Entry| greedy(rem)[g].contains(e) ==> rem.contains(e) by {
            if r.0.len() >= 2 {
                if g == 0 {
                    assert(greedy(rem)[g] == r.0);
                } else {
                    assert(greedy(rem)[g] == tail[g - 1]);
                    assert forall|e: Entry| tail[g - 1].contains(e) implies rem.contains(e) by {
                        assert(r.1.contains(e));
                    }
                }
            } else {
                assert(greedy(rem)[g] == tail[g]);
                assert forall|e: Entry| tail[g].contains(e) implies rem.contains(e) by {
                    assert(r.1.contains(e));
                }
            }
        }
    }
}

proof fn lemma_insert_by_size_members(s: Seq<Entry>, x: Entry)
    ensures
        forall|e: Entry| #[trigger] insert_by_size(s, x).contains(e) ==> e == x || s.contains(e),
    decreases s.len(),
{
    if s.len() > 0 && !(s[0].1.len() < x.1.len()) {
        lemma_insert_by_size_members(s.drop_first(), x);
        assert forall|e: Entry| #[trigger] insert_by_size(s, x).contains(e) implies e == x || s.contains(e) by {
            let r = seq![s[0]] + insert_by_size(s.drop_first(), x);
            let q = choose|q: int| 0 <= q < r.len() && r[q] == e;
            if q == 0 {
                assert(s[0] == e);
            } else {
                assert(insert_by_size(s.drop_first(), x).contains(e));
                if e != x {
                    let q2 = choose|q2: int| 0 <= q2 < s.drop_first().len() && s.drop_first()[q2] == e;
                    assert(s[q2 + 1] == e);
                }
            }
        }
    } else if s.len() > 0 {
        assert forall|e: Entry| #[trigger] insert_by_size(s, x).contains(e) implies e == x || s.contains(e) by {
            let r = seq![x] + s;
            let q = choose|q: int| 0 <= q < r.len() && r[q] == e;
            if q > 0 {
                assert(s[q - 1] == e);
            }
        }
    }
}

proof fn lemma_by_size_members(s: Seq<Entry>)
    ensures
        forall|e: Entry| #[trigger] by_size_desc(s).contains(e) ==> s.contains(e),
    decreases s.len(),
{
    if s.len() > 0 {
        lemma_by_size_members(s.drop_last());
        lemma_insert_by_size_members(by_size_desc(s.drop_last()), s.last());
        assert forall|e: Entry| #[trigger] by_size_desc(s).contains(e) implies s.contains(e) by {
            if e == s.last() {
                assert(s[s.len() - 1] == e);
            } else {
                assert(by_size_desc(s.drop_last()).contains(e));
                let q = choose|q: int| 0 <= q < s.drop_last().len() && s.drop_last()[q] == e;
                assert(s[q] == e);
            }
        }
    }
}

/// Every factor of a set of presences groups at least two keys of it, and
/// no instance holds two keys of one factor.
pub proof fn lemma_factors_disjoint(presences: Seq<Entry>)
    ensures
        forall|g: int|
            0 <= g < greedy(by_size_desc(presences)).len() ==> {
                let grp = #[trigger] greedy(by_size_desc(presences))[g];
                &&& grp.len() >= 2
                &&& pairwise_disjoint(grp)
                &&& forall|e: Entry| grp.contains(e) ==> presences.contains(e)
            },
{
    let sorted = by_size_desc(presences);
    lemma_greedy_facts(sorted);
    lemma_by_size_members(presences);
    assert forall|g: int| 0 <= g < greedy(sorted).len() implies {
        let grp = #[trigger] greedy(sorted)[g];
        &&& grp.len() >= 2
        &&& pairwise_disjoint(grp)
        &&& forall|e: Entry| grp.contains(e) ==> presences.contains(e)
    } by {
        let grp = greedy(sorted)[g];
        assert forall|e: Entry| grp.contains(e) implies presences.contains(e) by {
            assert(sorted.contains(e));
        }
    }
}

/// The groups' entries, one group after another.
pub open spec fn flat(gs: Seq<Seq<Entry>>) -> Seq<Entry>
    decreases gs.len(),
{
    if gs.len() == 0 {
        Seq::empty()
    } else {
        gs[0] + flat(gs.drop_first())
    }
}

proof fn lemma_insert_by_size_ms(s: Seq<Entry>, x: Entry)
    ensures
        insert_by_size(s, x).to_multiset() == s.to_multiset().insert(x),
    decreases s.len(),
{
    broadcast use vstd::seq_lib::group_to_multiset_ensures, vstd::seq_lib::lemma_multiset_commutative, vstd::multiset::group_multiset_axioms;
    if s.len() == 0 {
        assert(seq![x] =~= Seq::<Entry>::empty().push(x));
        assert(insert_by_size(s, x).to_multiset() =~= s.to_multiset().insert(x));
    } else if s[0].1.len() < x.1.len() {
        assert(seq![x] =~= Seq::<Entry>::empty().push(x));
        assert((seq![x] + s).to_multiset() =~= seq![x].to_multiset().add(s.to_multiset()));
        assert(insert_by_size(s, x).to_multiset() =~= s.to_multiset().insert(x));
    } else {
        lemma_insert_by_size_ms(s.drop_first(), x);
        assert(seq![s[0]] =~= Seq::<Entry>::empty().push(s[0]));
        assert(s =~= seq![s[0]] + s.drop_first());
        assert((seq![s[0]] + s.drop_first()).to_multiset() =~= seq![s[0]].to_multiset().add(s.drop_first().to_multiset()));
        assert((seq![s[0]] + insert_by_size(s.drop_first(), x)).to_multiset() =~= seq![s[0]].to_multiset().add(
            insert_by_size(s.drop_first(), x).to_multiset(),
        ));
        assert(insert_by_size(s, x).to_multiset() =~= s.to_multiset().insert(x));
    }
}

proof fn lemma_by_size_ms(s: Seq<Entry>)
    ensures
        by_size_desc(s).to_multiset() == s.to_multiset(),
    decreases s.len(),
{
    broadcast use vstd::seq_lib::group_to_multiset_ensures, vstd::multiset::group_multiset_axioms;
    if s.len() > 0 {
        lemma_by_size_ms(s.drop_last());
        lemma_insert_by_size_ms(by_size_desc(s.drop_last()), s.last());
        assert(s =~= s.drop_last().push(s.last()));
        assert(by_size_desc(s).to_multiset() =~= s.to_multiset());
    }
}

proof fn lemma_absorb_ms(group: Seq<Entry>, cands: Seq<Entry>)
    ensures
        (absorb(group, cands).0 + absorb(group, cands).1).to_multiset() == (group + cands).to_multiset(),
    decreases cands.len(),
{
    broadcast use vstd::seq_lib::group_to_multiset_ensures, vstd::seq_lib::lemma_multiset_commutative, vstd::multiset::group_multiset_axioms;
    if cands.len() == 0 {
        assert(absorb(group, cands).0 + absorb(group, cands).1 =~= group + cands);
    } else {
        let c = cands[0];
        let rest = cands.drop_first();
        if compatible(group, c) {
            lemma_absorb_ms(group.push(c), rest);
            assert(group.push(c) + rest =~= group + cands);
        } else {
            lemma_absorb_ms(group, rest);
            let r = absorb(group, rest);
            assert(absorb(group, cands).0 == r.0);
            assert(absorb(group, cands).1 == seq![c] + r.1);
            assert(seq![c] =~= Seq::<Entry>::empty().push(c));
            assert((r.0 + (seq![c] + r.1)).to_multiset() =~= r.0.to_multiset().add((seq![c] + r.1).to_multiset()));
            assert((seq![c] + r.1).to_multiset() =~= seq![c].to_multiset().add(r.1.to_multiset()));
            assert((r.0 + r.1).to_multiset() =~= r.0.to_multiset().add(r.1.to_multiset()));
            assert((group + rest).to_multiset() =~= group.to_multiset().add(rest.to_multiset()));
            assert(cands =~= seq![c] + rest);
            assert((seq![c] + rest).to_multiset() =~= seq![c].to_multiset().add(rest.to_multiset()));
            assert((group + cands).to_multiset() =~= group.to_multiset().add(cands.to_multiset()));
            assert forall|e: Entry| #[trigger] (absorb(group, cands).0 + absorb(group, cands).1).to_multiset().count(e)
                == (group + cands).to_multiset().count(e) by {
                assert((r.0 + r.1).to_multiset().count(e) == (group + rest).to_multiset().count(e));
            }
            assert((absorb(group, cands).0 + absorb(group, cands).1).to_multiset() =~= (group + cands).to_multiset());
        }
    }
}

proof fn lemma_greedy_ms(rem: Seq<Entry>)
    ensures
        forall|e: Entry| #[trigger] flat(greedy(rem)).to_multiset().count(e) <= rem.to_multiset().count(e),
    decreases rem.len(),
{
    broadcast use vstd::seq_lib::group_to_multiset_ensures, vstd::seq_lib::lemma_multiset_commutative, vstd::multiset::group_multiset_axioms;
    if rem.len() > 0 {
        let seed = seq![rem[0]];
        let cands = rem.drop_first();
        lemma_absorb_len(seed, cands);
        lemma_absorb_ms(seed, cands);
        let r = absorb(seed, cands);
        lemma_greedy_ms(r.1);
        let tail = greedy(r.1);
        assert(rem =~= seed + cands);
        assert((r.0 + r.1).to_multiset() =~= r.0.to_multiset().add(r.1.to_multiset()));
        if r.0.len() >= 2 {
            let gs = seq![r.0] + tail;
            assert(greedy(rem) == gs);
            assert(gs[0] == r.0);
            assert(gs.drop_first() =~= tail);
            assert(flat(gs) == r.0 + flat(tail));
            assert((r.0 + flat(tail)).to_multiset() =~= r.0.to_multiset().add(flat(tail).to_multiset()));
        } else {
            assert(greedy(rem) == tail);
        }
    }
}

proof fn lemma_flat_count_one(gs: Seq<Seq<Entry>>, i: int, e: Entry)
    requires
        0 <= i < gs.len(),
        gs[i].contains(e),
    ensures
        flat(gs).to_multiset().count(e) >= 1,
    decreases gs.len(),
{
    broadcast use vstd::seq_lib::group_to_multiset_ensures, vstd::seq_lib::lemma_multiset_commutative, vstd::multiset::group_multiset_axioms;
    assert((gs[0] + flat(gs.drop_first())).to_multiset() =~= gs[0].to_multiset().add(flat(gs.drop_first()).to_multiset()));
    if i > 0 {
        assert(gs.drop_first()[i - 1] == gs[i]);
        lemma_flat_count_one(gs.drop_first(), i - 1, e);
    }
}

proof fn lemma_flat_count_two(gs: Seq<Seq<Entry>>, i: int, j: int, e: Entry)
    requires
        0 <= i < gs.len(),
        0 <= j < gs.len(),
        i != j,
        gs[i].contains(e),
        gs[j].contains(e),
    ensures
        flat(gs).to_multiset().count(e) >= 2,
    decreases gs.len(),
{
    broadcast use vstd::seq_lib::group_to_multiset_ensures, vstd::seq_lib::lemma_multiset_commutative, vstd::multiset::group_multiset_axioms;
    let rest = gs.drop_first();
    assert((gs[0] + flat(rest)).to_multiset() =~= gs[0].to_multiset().add(flat(rest).to_multiset()));
    if i == 0 {
        assert(rest[j - 1] == gs[j]);
        lemma_flat_count_one(rest, j - 1, e);
    } else if j == 0 {
        assert(rest[i - 1] == gs[i]);
        lemma_flat_count_one(rest, i - 1, e);
    } else {
        assert(rest[i - 1] == gs[i] && rest[j - 1] == gs[j]);
        lemma_flat_count_two(rest, i - 1, j - 1, e);
    }
}

proof fn lemma_flat_count_within(gs: Seq<Seq<Entry>>, i: int, a: int, b: int)
    requires
        0 <= i < gs.len(),
        0 <= a < b < gs[i].len(),
        gs[i][a] == gs[i][b],
    ensures
        flat(gs).to_multiset().count(gs[i][a]) >= 2,
    decreases gs.len(),
{
    broadcast use vstd::seq_lib::group_to_multiset_ensures, vstd::seq_lib::lemma_multiset_commutative, vstd::multiset::group_multiset_axioms;
    let rest = gs.drop_first();
    assert((gs[0] + flat(rest)).to_multiset() =~= gs[0].to_multiset().add(flat(rest).to_multiset()));
    if i == 0 {
        let g = gs[0];
        let e = g[a];
        assert(g.remove(a).contains(e)) by {
            assert(g.remove(a)[b - 1] == g[b]);
        }
        assert(g.remove(a).to_multiset() =~= g.to_multiset().remove(e));
        assert(g.remove(a).to_multiset().count(e) >= 1);
        assert(g.contains(e));
        assert(g.to_multiset().count(e) >= 2);
    } else {
        assert(rest[i - 1] == gs[i]);
        lemma_flat_count_within(rest, i - 1, a, b);
    }
}

/// No key appears twice across the factors of a presence list whose keys
/// are distinct: not in two factors, and not twice in one.
pub proof fn lemma_factor_keys_unique(presences: Seq<Entry>)
    requires
        keys_of(presences).no_duplicates(),
    ensures
        ({
            let gs = greedy(by_size_desc(presences));
            &&& forall|g1: int, g2: int, a: int, b: int|
                0 <= g1 < gs.len() && 0 <= g2 < gs.len() && 0 <= a < gs[g1].len() && 0 <= b < gs[g2].len() && (g1 != g2
                    || a != b) ==> (#[trigger] gs[g1][a]).0 != (#[trigger] gs[g2][b]).0
        }),
{
    broadcast use vstd::seq_lib::group_to_multiset_ensures, vstd::multiset::group_multiset_axioms;
    let sorted = by_size_desc(presences);
    let gs = greedy(sorted);
    lemma_by_size_ms(presences);
    lemma_greedy_ms(sorted);
    lemma_greedy_facts(sorted);
    lemma_by_size_members(presences);
    assert(presences.no_duplicates()) by {
        assert forall|i: int, j: int| 0 <= i < presences.len() && 0 <= j < presences.len() && i != j implies presences[i]
            != presences[j] by {
            assert(keys_of(presences)[i] == presences[i].0 && keys_of(presences)[j] == presences[j].0);
        }
    }
    presences.lemma_multiset_has_no_duplicates();
    assert forall|g1: int, g2: int, a: int, b: int|
        0 <= g1 < gs.len() && 0 <= g2 < gs.len() && 0 <= a < gs[g1].len() && 0 <= b < gs[g2].len() && (g1 != g2
            || a != b) implies (#[trigger] gs[g1][a]).0 != (#[trigger] gs[g2][b]).0 by {
        let e1 = gs[g1][a];
        let e2 = gs[g2][b];
        if e1.0 == e2.0 {
            assert(gs[g1].contains(e1) && gs[g2].contains(e2));
            assert(sorted.contains(e1) && sorted.contains(e2));
            assert(presences.contains(e1) && presences.contains(e2));
            let i = choose|i: int| 0 <= i < presences.len() && presences[i] == e1;
            let j = choose|j: int| 0 <= j < presences.len() && presences[j] == e2;
            assert(keys_of(presences)[i] == keys_of(presences)[j]);
            assert(e1 == e2);
            assert(presences.to_multiset().count(e1) == 1);
            assert(sorted.to_multiset().count(e1) == 1);
            if g1 != g2 {
                lemma_flat_count_two(gs, g1, g2, e1);
            } else if a < b {
                lemma_flat_count_within(gs, g1, a, b);
            } else {
                lemma_flat_count_within(gs, g1, b, a);
            }
            assert(flat(gs).to_multiset().count(e1) <= sorted.to_multiset().count(e1));
        }
    }
}

// ---------------------------------------------------------------------------
// Factor groups and their cohorts
// ---------------------------------------------------------------------------

/// The instance set of key `k` in a presence list, if the list holds it.
pub open spec fn presence_of(p: Seq<(String, Vec<usize>)>, k: Seq<char>) -> Option<Set<usize>> {
    match crate::pen::key_pos(kv_view(p), k, 0) {
        Some(i) => Some(p[i].1@.to_set()),
        None => None,
    }
}

/// Instance `x` holds some member of the group.
pub open spec fn held_by_some(p: Seq<(String, Vec<usize>)>, members: Seq<String>, x: usize) -> bool {
    exists|i: int| 0 <= i < members.len() && (#[trigger] presence_of(p, members[i]@))->0.contains(x)
}

/// A group of optional keys that are pairwise mutually exclusive across
/// the fleet.
#[derive(Debug, Clone)]
pub struct FactorGroup {
    /// Keys (by their hole address) that form this exclusion group.
    pub members: Vec<String>,
    /// For each member: the instances where it is present, ascending.
    pub member_instances: Vec<Vec<usize>>,
    /// Instances where none of the members are present, ascending.
    pub none_cohort: Vec<usize>,
}

fn find_presence(presences: &Vec<(String, Vec<usize>)>, k: &String) -> (res: Option<usize>)
    ensures
        match res {
            Some(i) => crate::pen::key_pos(kv_view(presences@), k@, 0) == Some(i as int),
            None => crate::pen::key_pos(kv_view(presences@), k@, 0) is None,
        },
{
    let ghost kv = kv_view(presences@);
    let mut j: usize = 0;
    while j < presences.len()
        invariant
            j <= presences@.len(),
            kv == kv_view(presences@),
            crate::pen::key_pos(kv, k@, 0) == crate::pen::key_pos(kv, k@, j as int),
        decreases presences@.len() - j,
    {
        assert(kv[j as int].0 == presences@[j as int].0@);
        if presences[j].0 == *k {
            return Some(j);
        }
        j = j + 1;
    }
    None
}

fn vec_has(v: &Vec<usize>, x: usize) -> (res: bool)
    ensures
        res == v@.contains(x),
{
    let mut i: usize = 0;
    while i < v.len()
        invariant
            i <= v@.len(),
            forall|q: int| 0 <= q < i ==> v@[q] != x,
        decreases v@.len() - i,
    {
        if v[i] == x {
            return true;
        }
        i = i + 1;
    }
    false
}

/// The factor group of `members`: each member's instances, ascending, and
/// the instances below `total` that hold none of them, ascending. Every
/// member must be a key of the presence list.
pub fn factor_group(members: &Vec<String>, presences: &Vec<(String, Vec<usize>)>, total: usize) -> (res: FactorGroup)
    requires
        forall|i: int| 0 <= i < members@.len() ==> (#[trigger] presence_of(presences@, members@[i]@)) is Some,
    ensures
        res.members@.len() == members@.len(),
        forall|i: int| 0 <= i < members@.len() ==> (#[trigger] res.members@[i])@ == members@[i]@,
        res.member_instances@.len() == members@.len(),
        forall|i: int|
            0 <= i < members@.len() ==> strictly_ascending((#[trigger] res.member_instances@[i])@)
                && res.member_instances@[i]@.to_set() == presence_of(presences@, members@[i]@)->0,
        strictly_ascending(res.none_cohort@),
        forall|x: usize| #[trigger] res.none_cohort@.contains(x) <==> (x < total && !held_by_some(presences@, members@, x)),
{
    let mut names: Vec<String> = Vec::new();
    let mut sets: Vec<Vec<usize>> = Vec::new();
    let mut i: usize = 0;
    while i < members.len()
        invariant
            i <= members@.len(),
            forall|q: int| 0 <= q < members@.len() ==> (#[trigger] presence_of(presences@, members@[q]@)) is Some,
            names@.len() == i,
            sets@.len() == i,
            forall|q: int| 0 <= q < i ==> (#[trigger] names@[q])@ == members@[q]@,
            forall|q: int|
                0 <= q < i ==> strictly_ascending((#[trigger] sets@[q])@) && sets@[q]@.to_set() == presence_of(
                    presences@,
                    members@[q]@,
                )->0,
        decreases members@.len() - i,
    {
        let m = &members[i];
        assert(presence_of(presences@, members@[i as int]@) is Some);
        let idx = match find_presence(presences, m) {
            Some(j) => j,
            None => {
                assert(false);
                0
            },
        };
        proof {
            lemma_key_pos_range(kv_view(presences@), m@, 0);
        }
        let set = sorted_set(&presences[idx].1);
        names.push(m.clone());
        sets.push(set);
        i = i + 1;
    }
    let mut none: Vec<usize> = Vec::new();
    let mut x: usize = 0;
    while x < total
        invariant
            x <= total,
            sets@.len() == members@.len(),
            forall|q: int|
                0 <= q < members@.len() ==> (#[trigger] sets@[q])@.to_set() == presence_of(
                    presences@,
                    members@[q]@,
                )->0,
            strictly_ascending(none@),
            forall|q: int| 0 <= q < none@.len() ==> none@[q] < x,
            forall|y: usize| #[trigger] none@.contains(y) <==> (y < x && !held_by_some(presences@, members@, y)),
        decreases total - x,
    {
        let mut held = false;
        let mut k: usize = 0;
        while k < sets.len()
            invariant
                k <= sets@.len(),
                sets@.len() == members@.len(),
                forall|q: int|
                    0 <= q < members@.len() ==> (#[trigger] sets@[q])@.to_set() == presence_of(
                        presences@,
                        members@[q]@,
                    )->0,
                held == exists|q: int| 0 <= q < k && (#[trigger] presence_of(presences@, members@[q]@))->0.contains(x),
            decreases sets@.len() - k,
        {
            let h = vec_has(&sets[k], x);
            assert(sets@[k as int]@.to_set().contains(x) == sets@[k as int]@.contains(x));
            if h {
                held = true;
            }
            k = k + 1;
        }
        let ghost n0 = none@;
        if !held {
            assert(!held_by_some(presences@, members@, x)) by {
                if held_by_some(presences@, members@, x) {
                    let q = choose|q: int| 0 <= q < members@.len() && (#[trigger] presence_of(presences@, members@[q]@))->0.contains(x);
                    assert(presence_of(presences@, members@[q]@)->0.contains(x));
                }
            }
            none.push(x);
            assert(none@ == n0.push(x));
            assert forall|y: usize| #[trigger] none@.contains(y) <==> (y < x + 1 && !held_by_some(presences@, members@, y)) by {
                if y == x {
                    assert(none@[n0.len() as int] == x);
                    assert(none@.contains(y));
                } else if none@.contains(y) {
                    let q = choose|q: int| 0 <= q < none@.len() && none@[q] == y;
                    if q < n0.len() {
                        assert(n0[q] == y);
                        assert(n0.contains(y));
                    }
                } else if y < x && !held_by_some(presences@, members@, y) {
                    assert(n0.contains(y));
                    let q = choose|q: int| 0 <= q < n0.len() && n0[q] == y;
                    assert(none@[q] == y);
                    assert(none@.contains(y));
                }
            }
        } else {
            assert(held_by_some(presences@, members@, x)) by {
                let q = choose|q: int| 0 <= q < members@.len() && (#[trigger] presence_of(presences@, members@[q]@))->0.contains(x);
                assert(0 <= q < members@.len() && presence_of(presences@, members@[q]@)->0.contains(x));
            }
            assert forall|y: usize| #[trigger] none@.contains(y) <==> (y < x + 1 && !held_by_some(presences@, members@, y)) by {
                if y == x {
                    if none@.contains(y) {
                        let q = choose|q: int| 0 <= q < none@.len() && none@[q] == y;
                        assert(none@[q] < x);
                    }
                }
            }
        }
        x = x + 1;
    }
    FactorGroup { members: names, member_instances: sets, none_cohort: none }
}

/// The text that labels the cohort of instances holding no member.
pub open spec fn none_label() -> Seq<char> {
    "(none of the above)"@
}

/// The cohorts of the first `n` members: each member whose instances are
/// not empty, labelled by its name, in member order.
pub open spec fn member_cohorts(names: Seq<Seq<char>>, sets: Seq<Seq<usize>>, n: nat) -> Seq<(Seq<char>, Seq<usize>)>
    decreases n,
{
    if n == 0 {
        Seq::empty()
    } else {
        let prev = member_cohorts(names, sets, (n - 1) as nat);
        if sets[n - 1].len() > 0 {
            prev.push((names[n - 1], sets[n - 1]))
        } else {
            prev
        }
    }
}

/// The cohorts a factor group splits the fleet into: the members' cohorts,
/// then, when some instance holds no member, the cohort of those.
pub open spec fn cohorts_spec(names: Seq<Seq<char>>, sets: Seq<Seq<usize>>, none: Seq<usize>) -> Seq<(Seq<char>, Seq<usize>)> {
    let ms = member_cohorts(names, sets, sets.len());
    if none.len() > 0 {
        ms.push((none_label(), none))
    } else {
        ms
    }
}

impl FactorGroup {
    /// The members and instance lists line up.
    pub open spec fn well_formed(&self) -> bool {
        self.members@.len() == self.member_instances@.len()
    }

    /// The cohorts the group splits the fleet into, each as its label and
    /// its instances.
    pub fn cohorts(&self) -> (res: Vec<(String, Vec<usize>)>)
        requires
            self.well_formed(),
        ensures
            res@.map_values(|c: (String, Vec<usize>)| (c.0@, c.1@)) == cohorts_spec(
                self.members@.map_values(|m: String| m@),
                self.member_instances@.map_values(|v: Vec<usize>| v@),
                self.none_cohort@,
            ),
    {
        let ghost names = self.members@.map_values(|m: String| m@);
        let ghost sets = self.member_instances@.map_values(|v: Vec<usize>| v@);
        let mut out: Vec<(String, Vec<usize>)> = Vec::new();
        let mut i: usize = 0;
        while i < self.member_instances.len()
            invariant
                i <= self.member_instances@.len(),
                self.well_formed(),
                names == self.members@.map_values(|m: String| m@),
                sets == self.member_instances@.map_values(|v: Vec<usize>| v@),
                out@.map_values(|c: (String, Vec<usize>)| (c.0@, c.1@)) == member_cohorts(names, sets, i as nat),
            decreases self.member_instances@.len() - i,
        {
            let ghost o0 = out@;
            assert(sets[i as int] == self.member_instances@[i as int]@);
            assert(names[i as int] == self.members@[i as int]@);
            if self.member_instances[i].len() > 0 {
                out.push((self.members[i].clone(), self.member_instances[i].clone()));
                assert(out@.map_values(|c: (String, Vec<usize>)| (c.0@, c.1@)) =~= o0.map_values(
                    |c: (String, Vec<usize>)| (c.0@, c.1@),
                ).push((names[i as int], sets[i as int])));
            }
            i = i + 1;
        }
        if self.none_cohort.len() > 0 {
            let ghost o0 = out@;
            out.push(("(none of the above)".to_string(), self.none_cohort.clone()));
            assert(out@.map_values(|c: (String, Vec<usize>)| (c.0@, c.1@)) =~= o0.map_values(
                |c: (String, Vec<usize>)| (c.0@, c.1@),
            ).push((none_label(), self.none_cohort@)));
        }
        out
    }
}

} // verus!
