//! Stable orderings of indexed keys.
//!
//! A stable sort of `n` keyed items is described by the permutation of
//! `0..n` it produces: the item at each position, read as the pair (key,
//! original index), strictly precedes the item at every later position.

use vstd::prelude::*;

use crate::text::{chars_lt, compare_chars, compare_chars_exec, lemma_compare_chars_props, lemma_compare_chars_trans};

verus! {

/// `p` lists each of `0..n` exactly once.
pub open spec fn is_permutation(p: Seq<nat>, n: nat) -> bool {
    &&& p.len() == n
    &&& forall|i: int| 0 <= i < p.len() ==> #[trigger] p[i] < n
    &&& forall|i: int, j: int| 0 <= i < j < p.len() ==> p[i] != p[j]
}

/// A permutation of `0..n` takes every value below `n`.
pub proof fn lemma_permutation_onto(p: Seq<nat>, n: nat, k: nat)
    requires
        is_permutation(p, n),
        k < n,
    ensures
        exists|i: int| 0 <= i < p.len() && p[i] == k,
{
    let q = p.map_values(|x: nat| x as int);
    assert(q.no_duplicates()) by {
        assert forall|i: int, j: int| 0 <= i < q.len() && 0 <= j < q.len() && i != j implies q[i] != q[j] by {
            if i < j {
                assert(p[i] != p[j]);
            } else {
                assert(p[j] != p[i]);
            }
        }
    }
    q.unique_seq_to_set();
    vstd::set_lib::lemma_int_range(0, n as int);
    let r = vstd::set_lib::set_int_range(0, n as int);
    if !(exists|i: int| 0 <= i < p.len() && p[i] == k) {
        let r2 = r.remove(k as int);
        assert(q.to_set().subset_of(r2)) by {
            assert forall|x: int| q.to_set().contains(x) implies r2.contains(x) by {
                let i = choose|i: int| 0 <= i < q.len() && q[i] == x;
                assert(p[i] < n);
                assert(p[i] != k);
            }
        }
        assert(r.contains(k as int));
        vstd::set_lib::lemma_len_subset(q.to_set(), r2);
        assert(r2.len() == r.len() - 1);
        assert(false);
    }
}

/// (key `a`, index `i`) comes before (key `b`, index `j`).
pub open spec fn text_pair_lt(a: Seq<char>, i: nat, b: Seq<char>, j: nat) -> bool {
    chars_lt(a, b) || (a == b && i < j)
}

/// `p` orders `keys` ascending, ties kept in original order.
pub open spec fn stable_by_text(keys: Seq<Seq<char>>, p: Seq<nat>) -> bool {
    &&& is_permutation(p, keys.len())
    &&& forall|x: int, y: int|
        0 <= x < y < p.len() ==> text_pair_lt(
            keys[p[x] as int],
            #[trigger] p[x],
            keys[p[y] as int],
            #[trigger] p[y],
        )
}

/// (count `a`, index `i`) comes before (count `b`, index `j`) in
/// descending order of count.
pub open spec fn count_pair_before(a: nat, i: nat, b: nat, j: nat) -> bool {
    a > b || (a == b && i < j)
}

/// `p` orders `counts` descending, ties kept in original order.
pub open spec fn stable_by_count_desc(counts: Seq<nat>, p: Seq<nat>) -> bool {
    &&& is_permutation(p, counts.len())
    &&& forall|x: int, y: int|
        0 <= x < y < p.len() ==> count_pair_before(
            counts[p[x] as int],
            #[trigger] p[x],
            counts[p[y] as int],
            #[trigger] p[y],
        )
}

pub open spec fn nat_seq(v: Seq<usize>) -> Seq<nat> {
    v.map_values(|i: usize| i as nat)
}

pub open spec fn chars_seqs(v: Seq<Vec<char>>) -> Seq<Seq<char>> {
    v.map_values(|s: Vec<char>| s@)
}

/// The stable ascending order of `keys`.
pub fn stable_order_by_text(keys: &Vec<Vec<char>>) -> (res: Vec<usize>)
    ensures
        stable_by_text(chars_seqs(keys@), nat_seq(res@)),
{
    let ghost ks = chars_seqs(keys@);
    let mut out: Vec<usize> = Vec::new();
    let mut i: usize = 0;
    while i < keys.len()
        invariant
            i <= keys@.len(),
            ks == chars_seqs(keys@),
            ks.len() == keys@.len(),
            out@.len() == i,
            forall|x: int| 0 <= x < out@.len() ==> #[trigger] out@[x] < i,
            forall|x: int, y: int| 0 <= x < y < out@.len() ==> out@[x] != out@[y],
            forall|x: int, y: int|
                0 <= x < y < out@.len() ==> text_pair_lt(
                    ks[out@[x] as int],
                    #[trigger] out@[x] as nat,
                    ks[out@[y] as int],
                    #[trigger] out@[y] as nat,
                ),
        decreases keys@.len() - i,
    {
        // Insert `i` before the first entry whose key is greater.
        let mut p: usize = 0;
        while p < out.len() && compare_chars_exec(&keys[out[p]], &keys[i]) <= 0
            invariant
                p <= out@.len(),
                i < keys@.len(),
                ks == chars_seqs(keys@),
                forall|x: int| 0 <= x < out@.len() ==> #[trigger] out@[x] < i,
                forall|x: int| 0 <= x < p ==> !chars_lt(ks[i as int], #[trigger] ks[out@[x] as int]),
            decreases out@.len() - p,
        {
            proof {
                lemma_compare_chars_props(ks[out@[p as int] as int], ks[i as int]);
            }
            p = p + 1;
        }
        proof {
            if p < out@.len() {
                lemma_compare_chars_props(ks[out@[p as int] as int], ks[i as int]);
            }
        }
        let ghost o0 = out@;
        out.insert(p, i);
        proof {
            assert forall|x: int, y: int| 0 <= x < y < out@.len() implies text_pair_lt(
                ks[out@[x] as int],
                #[trigger] out@[x] as nat,
                ks[out@[y] as int],
                #[trigger] out@[y] as nat,
            ) by {
                let a = out@[x];
                let b = out@[y];
                if x < p && y < p {
                    assert(a == o0[x] && b == o0[y]);
                } else if x < p && y == p {
                    assert(a == o0[x]);
                    lemma_compare_chars_props(ks[i as int], ks[a as int]);
                } else if x < p && y > p {
                    assert(a == o0[x] && b == o0[y - 1]);
                } else if x == p {
                    assert(b == o0[y - 1]);
                    // every later entry has a greater key than the first
                    // one that stopped the scan, or is that one
                    assert(p < o0.len());
                    let s = o0[p as int];
                    assert(chars_lt(ks[i as int], ks[s as int])) by {
                        lemma_compare_chars_props(ks[s as int], ks[i as int]);
                    }
                    if y - 1 > p {
                        assert(text_pair_lt(ks[s as int], s as nat, ks[b as int], b as nat));
                        if chars_lt(ks[s as int], ks[b as int]) {
                            lemma_compare_chars_trans(ks[i as int], ks[s as int], ks[b as int]);
                        }
                    }
                } else {
                    assert(a == o0[x - 1] && b == o0[y - 1]);
                }
            }
            assert forall|x: int, y: int| 0 <= x < y < out@.len() implies out@[x] != out@[y] by {
                if x < p && y == p {
                    assert(out@[x] == o0[x]);
                } else if x == p && y > p {
                    assert(out@[y] == o0[y - 1]);
                } else if x < p && y < p {
                    assert(out@[x] == o0[x] && out@[y] == o0[y]);
                } else if x < p {
                    assert(out@[x] == o0[x] && out@[y] == o0[y - 1]);
                } else {
                    assert(out@[x] == o0[x - 1] && out@[y] == o0[y - 1]);
                }
            }
            assert forall|x: int| 0 <= x < out@.len() implies #[trigger] out@[x] < i + 1 by {
                if x < p {
                    assert(out@[x] == o0[x]);
                } else if x > p {
                    assert(out@[x] == o0[x - 1]);
                }
            }
        }
        i = i + 1;
    }
    proof {
        assert forall|x: int, y: int| 0 <= x < y < nat_seq(out@).len() implies text_pair_lt(
            ks[nat_seq(out@)[x] as int],
            #[trigger] nat_seq(out@)[x],
            ks[nat_seq(out@)[y] as int],
            #[trigger] nat_seq(out@)[y],
        ) by {
            assert(text_pair_lt(ks[out@[x] as int], out@[x] as nat, ks[out@[y] as int], out@[y] as nat));
        }
    }
    out
}

/// The stable descending order of `counts`.
pub fn stable_order_by_count_desc(counts: &Vec<usize>) -> (res: Vec<usize>)
    ensures
        stable_by_count_desc(nat_seq(counts@), nat_seq(res@)),
{
    let ghost cs = nat_seq(counts@);
    let mut out: Vec<usize> = Vec::new();
    let mut i: usize = 0;
    while i < counts.len()
        invariant
            i <= counts@.len(),
            cs == nat_seq(counts@),
            out@.len() == i,
            forall|x: int| 0 <= x < out@.len() ==> #[trigger] out@[x] < i,
            forall|x: int, y: int| 0 <= x < y < out@.len() ==> out@[x] != out@[y],
            forall|x: int, y: int|
                0 <= x < y < out@.len() ==> count_pair_before(
                    cs[out@[x] as int],
                    #[trigger] out@[x] as nat,
                    cs[out@[y] as int],
                    #[trigger] out@[y] as nat,
                ),
        decreases counts@.len() - i,
    {
        let mut p: usize = 0;
        while p < out.len() && counts[out[p]] >= counts[i]
            invariant
                p <= out@.len(),
                i < counts@.len(),
                cs == nat_seq(counts@),
                forall|x: int| 0 <= x < out@.len() ==> #[trigger] out@[x] < i,
                forall|x: int| 0 <= x < p ==> cs[i as int] <= #[trigger] cs[out@[x] as int],
            decreases out@.len() - p,
        {
            p = p + 1;
        }
        let ghost o0 = out@;
        out.insert(p, i);
        proof {
            assert forall|x: int, y: int| 0 <= x < y < out@.len() implies count_pair_before(
                cs[out@[x] as int],
                #[trigger] out@[x] as nat,
                cs[out@[y] as int],
                #[trigger] out@[y] as nat,
            ) by {
                if x < p && y < p {
                    assert(out@[x] == o0[x] && out@[y] == o0[y]);
                } else if x < p && y == p {
                    assert(out@[x] == o0[x]);
                } else if x < p && y > p {
                    assert(out@[x] == o0[x] && out@[y] == o0[y - 1]);
                } else if x == p {
                    assert(out@[y] == o0[y - 1]);
                    let s = o0[p as int];
                    assert(cs[s as int] < cs[i as int]);
                    if y - 1 > p {
                        assert(count_pair_before(cs[s as int], s as nat, cs[o0[y - 1] as int], o0[y - 1] as nat));
                    }
                } else {
                    assert(out@[x] == o0[x - 1] && out@[y] == o0[y - 1]);
                }
            }
            assert forall|x: int, y: int| 0 <= x < y < out@.len() implies out@[x] != out@[y] by {
                if x < p && y == p {
                    assert(out@[x] == o0[x]);
                } else if x == p && y > p {
                    assert(out@[y] == o0[y - 1]);
                } else if x < p && y < p {
                    assert(out@[x] == o0[x] && out@[y] == o0[y]);
                } else if x < p {
                    assert(out@[x] == o0[x] && out@[y] == o0[y - 1]);
                } else {
                    assert(out@[x] == o0[x - 1] && out@[y] == o0[y - 1]);
                }
            }
            assert forall|x: int| 0 <= x < out@.len() implies #[trigger] out@[x] < i + 1 by {
                if x < p {
                    assert(out@[x] == o0[x]);
                } else if x > p {
                    assert(out@[x] == o0[x - 1]);
                }
            }
        }
        i = i + 1;
    }
    proof {
        assert forall|x: int, y: int| 0 <= x < y < nat_seq(out@).len() implies count_pair_before(
            cs[nat_seq(out@)[x] as int],
            #[trigger] nat_seq(out@)[x],
            cs[nat_seq(out@)[y] as int],
            #[trigger] nat_seq(out@)[y],
        ) by {
            assert(count_pair_before(cs[out@[x] as int], out@[x] as nat, cs[out@[y] as int], out@[y] as nat));
        }
    }
    out
}

/// Two pairs of texts compared first by their first texts, then by their
/// second: negative, zero or positive.
pub open spec fn compare_pair(a: (Seq<char>, Seq<char>), b: (Seq<char>, Seq<char>)) -> int {
    if compare_chars(a.0, b.0) != 0 {
        compare_chars(a.0, b.0)
    } else {
        compare_chars(a.1, b.1)
    }
}

pub open spec fn pair_lt(a: (Seq<char>, Seq<char>), b: (Seq<char>, Seq<char>)) -> bool {
    compare_pair(a, b) < 0
}

/// (key `a`, index `i`) comes before (key `b`, index `j`).
pub open spec fn pair_item_lt(a: (Seq<char>, Seq<char>), i: nat, b: (Seq<char>, Seq<char>), j: nat) -> bool {
    pair_lt(a, b) || (a == b && i < j)
}

/// `p` orders the pairs ascending, ties kept in original order.
pub open spec fn stable_by_pair(keys: Seq<(Seq<char>, Seq<char>)>, p: Seq<nat>) -> bool {
    &&& is_permutation(p, keys.len())
    &&& forall|x: int, y: int|
        0 <= x < y < p.len() ==> pair_item_lt(
            keys[p[x] as int],
            #[trigger] p[x],
            keys[p[y] as int],
            #[trigger] p[y],
        )
}

pub open spec fn pair_seqs(v: Seq<(Vec<char>, Vec<char>)>) -> Seq<(Seq<char>, Seq<char>)> {
    v.map_values(|s: (Vec<char>, Vec<char>)| (s.0@, s.1@))
}

pub proof fn lemma_compare_pair_props(a: (Seq<char>, Seq<char>), b: (Seq<char>, Seq<char>))
    ensures
        compare_pair(a, b) == -compare_pair(b, a),
        -1 <= compare_pair(a, b) <= 1,
        (compare_pair(a, b) == 0) == (a == b),
{
    lemma_compare_chars_props(a.0, b.0);
    lemma_compare_chars_props(a.1, b.1);
}

pub proof fn lemma_compare_pair_trans(
    a: (Seq<char>, Seq<char>),
    b: (Seq<char>, Seq<char>),
    c: (Seq<char>, Seq<char>),
)
    requires
        compare_pair(a, b) < 0,
        compare_pair(b, c) < 0,
    ensures
        compare_pair(a, c) < 0,
{
    lemma_compare_chars_props(a.0, b.0);
    lemma_compare_chars_props(b.0, c.0);
    lemma_compare_chars_props(a.0, c.0);
    if compare_chars(a.0, b.0) < 0 && compare_chars(b.0, c.0) < 0 {
        lemma_compare_chars_trans(a.0, b.0, c.0);
    } else if compare_chars(a.0, b.0) == 0 && compare_chars(b.0, c.0) == 0 {
        lemma_compare_chars_trans(a.1, b.1, c.1);
    }
}

pub fn compare_pair_exec(a: &(Vec<char>, Vec<char>), b: &(Vec<char>, Vec<char>)) -> (res: i8)
    ensures
        res as int == compare_pair((a.0@, a.1@), (b.0@, b.1@)),
{
    let c = compare_chars_exec(&a.0, &b.0);
    if c != 0 {
        c
    } else {
        compare_chars_exec(&a.1, &b.1)
    }
}

/// The stable ascending order of pairs of texts, compared first by their
/// first text, then by their second.
pub fn stable_order_by_pair(keys: &Vec<(Vec<char>, Vec<char>)>) -> (res: Vec<usize>)
    ensures
        stable_by_pair(pair_seqs(keys@), nat_seq(res@)),
{
    let ghost ks = pair_seqs(keys@);
    let mut out: Vec<usize> = Vec::new();
    let mut i: usize = 0;
    while i < keys.len()
        invariant
            i <= keys@.len(),
            ks == pair_seqs(keys@),
            ks.len() == keys@.len(),
            out@.len() == i,
            forall|x: int| 0 <= x < out@.len() ==> #[trigger] out@[x] < i,
            forall|x: int, y: int| 0 <= x < y < out@.len() ==> out@[x] != out@[y],
            forall|x: int, y: int|
                0 <= x < y < out@.len() ==> pair_item_lt(
                    ks[out@[x] as int],
                    #[trigger] out@[x] as nat,
                    ks[out@[y] as int],
                    #[trigger] out@[y] as nat,
                ),
        decreases keys@.len() - i,
    {
        // Insert `i` before the first entry whose key is greater.
        let mut p: usize = 0;
        while p < out.len() && compare_pair_exec(&keys[out[p]], &keys[i]) <= 0
            invariant
                p <= out@.len(),
                i < keys@.len(),
                ks == pair_seqs(keys@),
                forall|x: int| 0 <= x < out@.len() ==> #[trigger] out@[x] < i,
                forall|x: int| 0 <= x < p ==> !pair_lt(ks[i as int], #[trigger] ks[out@[x] as int]),
            decreases out@.len() - p,
        {
            proof {
                lemma_compare_pair_props(ks[out@[p as int] as int], ks[i as int]);
            }
            p = p + 1;
        }
        proof {
            if p < out@.len() {
                lemma_compare_pair_props(ks[out@[p as int] as int], ks[i as int]);
            }
        }
        let ghost o0 = out@;
        out.insert(p, i);
        proof {
            assert forall|x: int, y: int| 0 <= x < y < out@.len() implies pair_item_lt(
                ks[out@[x] as int],
                #[trigger] out@[x] as nat,
                ks[out@[y] as int],
                #[trigger] out@[y] as nat,
            ) by {
                let a = out@[x];
                let b = out@[y];
                if x < p && y < p {
                    assert(a == o0[x] && b == o0[y]);
                } else if x < p && y == p {
                    assert(a == o0[x]);
                    lemma_compare_pair_props(ks[i as int], ks[a as int]);
                } else if x < p && y > p {
                    assert(a == o0[x] && b == o0[y - 1]);
                } else if x == p {
                    assert(b == o0[y - 1]);
                    // every later entry has a greater key than the first
                    // one that stopped the scan, or is that one
                    assert(p < o0.len());
                    let s = o0[p as int];
                    assert(pair_lt(ks[i as int], ks[s as int])) by {
                        lemma_compare_pair_props(ks[s as int], ks[i as int]);
                    }
                    if y - 1 > p {
                        assert(pair_item_lt(ks[s as int], s as nat, ks[b as int], b as nat));
                        if pair_lt(ks[s as int], ks[b as int]) {
                            lemma_compare_pair_trans(ks[i as int], ks[s as int], ks[b as int]);
                        }
                    }
                } else {
                    assert(a == o0[x - 1] && b == o0[y - 1]);
                }
            }
            assert forall|x: int, y: int| 0 <= x < y < out@.len() implies out@[x] != out@[y] by {
                if x < p && y == p {
                    assert(out@[x] == o0[x]);
                } else if x == p && y > p {
                    assert(out@[y] == o0[y - 1]);
                } else if x < p && y < p {
                    assert(out@[x] == o0[x] && out@[y] == o0[y]);
                } else if x < p {
                    assert(out@[x] == o0[x] && out@[y] == o0[y - 1]);
                } else {
                    assert(out@[x] == o0[x - 1] && out@[y] == o0[y - 1]);
                }
            }
            assert forall|x: int| 0 <= x < out@.len() implies #[trigger] out@[x] < i + 1 by {
                if x < p {
                    assert(out@[x] == o0[x]);
                } else if x > p {
                    assert(out@[x] == o0[x - 1]);
                }
            }
        }
        i = i + 1;
    }
    proof {
        assert forall|x: int, y: int| 0 <= x < y < nat_seq(out@).len() implies pair_item_lt(
            ks[nat_seq(out@)[x] as int],
            #[trigger] nat_seq(out@)[x],
            ks[nat_seq(out@)[y] as int],
            #[trigger] nat_seq(out@)[y],
        ) by {
            assert(pair_item_lt(ks[out@[x] as int], out@[x] as nat, ks[out@[y] as int], out@[y] as nat));
        }
    }
    out
}

/// Stamp `a` is later than `b`; an absent stamp is earlier than any.
pub open spec fn stamp_gt(a: Option<i128>, b: Option<i128>) -> bool {
    match (a, b) {
        (Some(x), Some(y)) => x > y,
        (Some(_), None) => true,
        _ => false,
    }
}

fn stamp_gt_exec(a: Option<i128>, b: Option<i128>) -> (res: bool)
    ensures
        res == stamp_gt(a, b),
{
    match (a, b) {
        (Some(x), Some(y)) => x > y,
        (Some(_), None) => true,
        _ => false,
    }
}

/// (stamp `a`, index `i`) comes before (stamp `b`, index `j`) in
/// descending order of stamp.
pub open spec fn stamp_pair_before(a: Option<i128>, i: nat, b: Option<i128>, j: nat) -> bool {
    stamp_gt(a, b) || (a == b && i < j)
}

/// `p` orders `stamps` descending, absent ones last, ties kept in
/// original order.
pub open spec fn stable_by_stamp_desc(stamps: Seq<Option<i128>>, p: Seq<nat>) -> bool {
    &&& is_permutation(p, stamps.len())
    &&& forall|x: int, y: int|
        0 <= x < y < p.len() ==> stamp_pair_before(
            stamps[p[x] as int],
            #[trigger] p[x],
            stamps[p[y] as int],
            #[trigger] p[y],
        )
}

/// The stable descending order of optional stamps, absent ones last.
pub fn stable_order_by_stamp_desc(stamps: &Vec<Option<i128>>) -> (res: Vec<usize>)
    ensures
        stable_by_stamp_desc(stamps@, nat_seq(res@)),
{
    let ghost cs = stamps@;
    let mut out: Vec<usize> = Vec::new();
    let mut i: usize = 0;
    while i < stamps.len()
        invariant
            i <= stamps@.len(),
            cs == stamps@,
            out@.len() == i,
            forall|x: int| 0 <= x < out@.len() ==> #[trigger] out@[x] < i,
            forall|x: int, y: int| 0 <= x < y < out@.len() ==> out@[x] != out@[y],
            forall|x: int, y: int|
                0 <= x < y < out@.len() ==> stamp_pair_before(
                    cs[out@[x] as int],
                    #[trigger] out@[x] as nat,
                    cs[out@[y] as int],
                    #[trigger] out@[y] as nat,
                ),
        decreases stamps@.len() - i,
    {
        let mut p: usize = 0;
        while p < out.len() && !stamp_gt_exec(stamps[i], stamps[out[p]])
            invariant
                p <= out@.len(),
                i < stamps@.len(),
                cs == stamps@,
                forall|x: int| 0 <= x < out@.len() ==> #[trigger] out@[x] < i,
                forall|x: int| 0 <= x < p ==> !stamp_gt(cs[i as int], #[trigger] cs[out@[x] as int]),
            decreases out@.len() - p,
        {
            p = p + 1;
        }
        let ghost o0 = out@;
        out.insert(p, i);
        proof {
            assert forall|x: int, y: int| 0 <= x < y < out@.len() implies stamp_pair_before(
                cs[out@[x] as int],
                #[trigger] out@[x] as nat,
                cs[out@[y] as int],
                #[trigger] out@[y] as nat,
            ) by {
                if x < p && y < p {
                    assert(out@[x] == o0[x] && out@[y] == o0[y]);
                } else if x < p && y == p {
                    assert(out@[x] == o0[x]);
                } else if x < p && y > p {
                    assert(out@[x] == o0[x] && out@[y] == o0[y - 1]);
                } else if x == p {
                    assert(out@[y] == o0[y - 1]);
                    let s = o0[p as int];
                    assert(stamp_gt(cs[i as int], cs[s as int]));
                    if y - 1 > p {
                        assert(stamp_pair_before(cs[s as int], s as nat, cs[o0[y - 1] as int], o0[y - 1] as nat));
                    }
                } else {
                    assert(out@[x] == o0[x - 1] && out@[y] == o0[y - 1]);
                }
            }
            assert forall|x: int, y: int| 0 <= x < y < out@.len() implies out@[x] != out@[y] by {
                if x < p && y == p {
                    assert(out@[x] == o0[x]);
                } else if x == p && y > p {
                    assert(out@[y] == o0[y - 1]);
                } else if x < p && y < p {
                    assert(out@[x] == o0[x] && out@[y] == o0[y]);
                } else if x < p {
                    assert(out@[x] == o0[x] && out@[y] == o0[y - 1]);
                } else {
                    assert(out@[x] == o0[x - 1] && out@[y] == o0[y - 1]);
                }
            }
            assert forall|x: int| 0 <= x < out@.len() implies #[trigger] out@[x] < i + 1 by {
                if x < p {
                    assert(out@[x] == o0[x]);
                } else if x > p {
                    assert(out@[x] == o0[x - 1]);
                }
            }
        }
        i = i + 1;
    }
    proof {
        assert forall|x: int, y: int| 0 <= x < y < nat_seq(out@).len() implies stamp_pair_before(
            cs[nat_seq(out@)[x] as int],
            #[trigger] nat_seq(out@)[x],
            cs[nat_seq(out@)[y] as int],
            #[trigger] nat_seq(out@)[y],
        ) by {
            assert(stamp_pair_before(cs[out@[x] as int], out@[x] as nat, cs[out@[y] as int], out@[y] as nat));
        }
    }
    out
}

} // verus!
