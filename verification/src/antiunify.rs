//! Anti-unification of a set of values into a template with holes.
//!
//! Where all instances agree, the template keeps the literal value; where
//! they disagree, it has a hole, and the values each instance had there
//! are recorded as that hole's observations. Objects are merged key by key
//! (a key is required when every instance in scope has it, optional
//! otherwise); arrays of equal length are aligned position by position;
//! arrays whose elements are all objects are treated as sets, clustering
//! elements across instances.

use vstd::prelude::*;

use crate::address::{key_index, lookup};
use crate::json::{JVal, Json, JsonEntry, group_json_view, json_clone, json_eq, lemma_view_list_index, view_list};
use crate::text::{chars_lt, compare_chars, compare_chars_exec, chars_of, lemma_compare_chars_props, lemma_compare_chars_trans};

verus! {

broadcast use group_json_view;

// ---------------------------------------------------------------------------
// Model
// ---------------------------------------------------------------------------

/// Model of a template node.
pub enum TmplV {
    Literal(JVal),
    Hole(nat),
    /// Per key, sorted by key: (key, template, present_in, total).
    Object(Seq<(Seq<char>, TmplV, nat, nat)>),
    Array(Seq<TmplV>),
    /// An array with set semantics; per cluster: (template, present_in,
    /// total).
    Unordered(Seq<(TmplV, nat, nat)>),
}

/// Model of one hole's observations: the instances (as indices into the
/// values being anti-unified) and the value each had.
pub type ObsV = (Seq<nat>, Seq<JVal>);

// ---------------------------------------------------------------------------
// Shape predicates and columns
// ---------------------------------------------------------------------------

pub open spec fn all_equal(vals: Seq<JVal>) -> bool {
    forall|i: int| 0 <= i < vals.len() ==> #[trigger] vals[i] == vals[0]
}

pub open spec fn all_objects(vals: Seq<JVal>) -> bool {
    forall|i: int| 0 <= i < vals.len() ==> (#[trigger] vals[i]) is Obj
}

pub open spec fn all_arrays(vals: Seq<JVal>) -> bool {
    forall|i: int| 0 <= i < vals.len() ==> (#[trigger] vals[i]) is Arr
}

pub open spec fn arr_of(v: JVal) -> Seq<JVal> {
    match v {
        JVal::Arr(xs) => xs,
        _ => Seq::empty(),
    }
}

pub open spec fn obj_of(v: JVal) -> Seq<(Seq<char>, JVal)> {
    match v {
        JVal::Obj(es) => es,
        _ => Seq::empty(),
    }
}

/// Every element of every array is an object.
pub open spec fn elements_all_objects(vals: Seq<JVal>) -> bool {
    forall|i: int, j: int|
        0 <= i < vals.len() && 0 <= j < arr_of(vals[i]).len() ==> (#[trigger] arr_of(vals[i])[j]) is Obj
}

pub open spec fn same_lengths(vals: Seq<JVal>) -> bool {
    forall|i: int| 0 <= i < vals.len() ==> arr_of(#[trigger] vals[i]).len() == arr_of(vals[0]).len()
}

/// The keys of `es`'s first `m` entries added to `acc`, each once, in
/// first-seen order.
pub open spec fn add_keys(acc: Seq<Seq<char>>, es: Seq<(Seq<char>, JVal)>, m: nat) -> Seq<Seq<char>>
    decreases m,
{
    if m == 0 || m > es.len() {
        acc
    } else {
        let a = add_keys(acc, es, (m - 1) as nat);
        if a.contains(es[m - 1].0) {
            a
        } else {
            a.push(es[m - 1].0)
        }
    }
}

/// The union of the keys of the first `n` objects, in first-seen order.
pub open spec fn union_keys(vals: Seq<JVal>, n: nat) -> Seq<Seq<char>>
    decreases n,
{
    if n == 0 || n > vals.len() {
        Seq::empty()
    } else {
        let es = obj_of(vals[n - 1]);
        add_keys(union_keys(vals, (n - 1) as nat), es, es.len())
    }
}

/// Among the first `n` values, the values at key `k` of those that have it,
/// with their positions.
pub open spec fn key_column(vals: Seq<JVal>, k: Seq<char>, n: nat) -> (Seq<JVal>, Seq<nat>)
    decreases n,
{
    if n == 0 || n > vals.len() {
        (Seq::empty(), Seq::empty())
    } else {
        let prev = key_column(vals, k, (n - 1) as nat);
        match lookup(obj_of(vals[n - 1]), k) {
            Some(c) => (prev.0.push(c), prev.1.push((n - 1) as nat)),
            None => prev,
        }
    }
}

/// The `i`-th element of every array.
pub open spec fn array_column(vals: Seq<JVal>, i: int) -> Seq<JVal> {
    Seq::new(vals.len(), |j: int| arr_of(vals[j])[i])
}

/// Among the first `n` arrays, the `j`-th element of those long enough,
/// with their positions.
pub open spec fn set_column(vals: Seq<JVal>, j: nat, n: nat) -> (Seq<JVal>, Seq<nat>)
    decreases n,
{
    if n == 0 || n > vals.len() {
        (Seq::empty(), Seq::empty())
    } else {
        let prev = set_column(vals, j, (n - 1) as nat);
        if arr_of(vals[n - 1]).len() > j {
            (prev.0.push(arr_of(vals[n - 1])[j as int]), prev.1.push((n - 1) as nat))
        } else {
            prev
        }
    }
}

/// The longest of the first `n` arrays.
pub open spec fn max_len(vals: Seq<JVal>, n: nat) -> nat
    decreases n,
{
    if n == 0 || n > vals.len() {
        0
    } else {
        let m = max_len(vals, (n - 1) as nat);
        if arr_of(vals[n - 1]).len() > m {
            arr_of(vals[n - 1]).len()
        } else {
            m
        }
    }
}

/// Observations recorded against a column, restated against the values
/// the column was drawn from.
pub open spec fn remap(o: Seq<ObsV>, parents: Seq<nat>) -> Seq<ObsV> {
    o.map_values(|ob: ObsV| (ob.0.map_values(|l: nat| parents[l as int]), ob.1))
}

pub open spec fn positions(n: nat) -> Seq<nat> {
    Seq::new(n, |i: int| i as nat)
}

/// A hole over all `vals`, with id `base`.
pub open spec fn hole_of(vals: Seq<JVal>, base: nat) -> (TmplV, Seq<ObsV>) {
    (TmplV::Hole(base), seq![(positions(vals.len()), vals)])
}

// ---------------------------------------------------------------------------
// Depth, the measure that anti-unification descends
// ---------------------------------------------------------------------------

pub open spec fn depth(v: JVal) -> nat
    decreases v, 0nat,
{
    match v {
        JVal::Arr(xs) => 1 + depth_items(xs, xs.len()),
        JVal::Obj(es) => 1 + depth_entries(es, es.len()),
        _ => 1,
    }
}

/// The greatest depth among the first `n` values (0 when there are none).
pub open spec fn depth_items(xs: Seq<JVal>, n: nat) -> nat
    decreases xs, n,
{
    if n == 0 || n > xs.len() {
        0
    } else {
        let m = depth_items(xs, (n - 1) as nat);
        if depth(xs[n - 1]) > m {
            depth(xs[n - 1])
        } else {
            m
        }
    }
}

pub open spec fn depth_entries(es: Seq<(Seq<char>, JVal)>, n: nat) -> nat
    decreases es, n,
{
    if n == 0 || n > es.len() {
        0
    } else {
        let m = depth_entries(es, (n - 1) as nat);
        if depth(es[n - 1].1) > m {
            depth(es[n - 1].1)
        } else {
            m
        }
    }
}

pub open spec fn max_depth(vals: Seq<JVal>) -> nat {
    depth_items(vals, vals.len())
}

// ---------------------------------------------------------------------------
// Anti-unification
// ---------------------------------------------------------------------------

/// Anti-unify `vals`; hole ids start at `base`. `d` bounds the depth of
/// the values, and so the depth of the recursion.
pub open spec fn au(vals: Seq<JVal>, base: nat, d: nat) -> (TmplV, Seq<ObsV>)
    decreases d, 1nat, 0nat,
{
    if d == 0 || vals.len() == 0 {
        hole_of(vals, base)
    } else if all_equal(vals) {
        (TmplV::Literal(vals[0]), Seq::empty())
    } else if all_objects(vals) {
        let keys = union_keys(vals, vals.len());
        let r = au_fields(vals, keys, base, d, keys.len());
        (TmplV::Object(sort_fields(r.0)), r.1)
    } else if all_arrays(vals) && elements_all_objects(vals) {
        let r = au_clusters(vals, base, d, max_len(vals, vals.len()));
        (TmplV::Unordered(r.0), r.1)
    } else if all_arrays(vals) && same_lengths(vals) {
        let r = au_columns(vals, base, d, arr_of(vals[0]).len());
        (TmplV::Array(r.0), r.1)
    } else {
        hole_of(vals, base)
    }
}

/// The fields for the first `n` keys, in key order of first sight.
pub open spec fn au_fields(vals: Seq<JVal>, keys: Seq<Seq<char>>, base: nat, d: nat, n: nat) -> (
    Seq<(Seq<char>, TmplV, nat, nat)>,
    Seq<ObsV>,
)
    decreases d, 0nat, n,
{
    if d == 0 || n == 0 || n > keys.len() {
        (Seq::empty(), Seq::empty())
    } else {
        let prev = au_fields(vals, keys, base, d, (n - 1) as nat);
        let col = key_column(vals, keys[n - 1], vals.len());
        let ch = au(col.0, base + prev.1.len(), (d - 1) as nat);
        (
            prev.0.push((keys[n - 1], ch.0, col.0.len(), vals.len())),
            prev.1 + remap(ch.1, col.1),
        )
    }
}

/// The templates of the first `n` positions of equal-length arrays.
pub open spec fn au_columns(vals: Seq<JVal>, base: nat, d: nat, n: nat) -> (Seq<TmplV>, Seq<ObsV>)
    decreases d, 0nat, n,
{
    if d == 0 || n == 0 {
        (Seq::empty(), Seq::empty())
    } else {
        let prev = au_columns(vals, base, d, (n - 1) as nat);
        let ch = au(array_column(vals, n - 1), base + prev.1.len(), (d - 1) as nat);
        (prev.0.push(ch.0), prev.1 + ch.1)
    }
}

/// The clusters of the first `n` element positions of arrays of objects.
///
/// Elements are clustered by signature: the keys common to every element
/// of every array in scope, and the element's ordinal among the elements
/// of its own array with the same common keys. Every element carries all
/// common keys, so the ordinal is the element's position, and cluster `j`
/// holds the `j`-th element of each array that has one.
pub open spec fn au_clusters(vals: Seq<JVal>, base: nat, d: nat, n: nat) -> (
    Seq<(TmplV, nat, nat)>,
    Seq<ObsV>,
)
    decreases d, 0nat, n,
{
    if d == 0 || n == 0 {
        (Seq::empty(), Seq::empty())
    } else {
        let prev = au_clusters(vals, base, d, (n - 1) as nat);
        let col = set_column(vals, (n - 1) as nat, vals.len());
        let ch = au(col.0, base + prev.1.len(), (d - 1) as nat);
        (prev.0.push((ch.0, col.0.len(), vals.len())), prev.1 + remap(ch.1, col.1))
    }
}

/// `x` inserted into `s` before the first element whose key is greater.
pub open spec fn insert_field(s: Seq<(Seq<char>, TmplV, nat, nat)>, x: (Seq<char>, TmplV, nat, nat)) -> Seq<
    (Seq<char>, TmplV, nat, nat),
>
    decreases s.len(),
{
    if s.len() == 0 {
        seq![x]
    } else if chars_lt(x.0, s[0].0) {
        seq![x] + s
    } else {
        seq![s[0]] + insert_field(s.drop_first(), x)
    }
}

/// Fields ordered by key.
pub open spec fn sort_fields(s: Seq<(Seq<char>, TmplV, nat, nat)>) -> Seq<(Seq<char>, TmplV, nat, nat)>
    decreases s.len(),
{
    if s.len() == 0 {
        s
    } else {
        insert_field(sort_fields(s.drop_last()), s.last())
    }
}

/// Anti-unification of a whole instance list.
pub open spec fn anti_unify_spec(vals: Seq<JVal>) -> (TmplV, Seq<ObsV>) {
    au(vals, 0, max_depth(vals))
}


// ---------------------------------------------------------------------------
// Facts about depth and columns
// ---------------------------------------------------------------------------

pub proof fn lemma_depth_pos(v: JVal)
    ensures
        depth(v) >= 1,
{
}

pub proof fn lemma_depth_items_bound(xs: Seq<JVal>, n: nat, i: int)
    requires
        0 <= i < n <= xs.len(),
    ensures
        depth(xs[i]) <= depth_items(xs, n),
    decreases n,
{
    if i < n - 1 {
        lemma_depth_items_bound(xs, (n - 1) as nat, i);
    }
}

pub proof fn lemma_depth_entries_bound(es: Seq<(Seq<char>, JVal)>, n: nat, i: int)
    requires
        0 <= i < n <= es.len(),
    ensures
        depth(es[i].1) <= depth_entries(es, n),
    decreases n,
{
    if i < n - 1 {
        lemma_depth_entries_bound(es, (n - 1) as nat, i);
    }
}

pub proof fn lemma_depth_items_max(xs: Seq<JVal>, n: nat, b: nat)
    requires
        n <= xs.len(),
        forall|i: int| 0 <= i < n ==> depth(#[trigger] xs[i]) <= b,
    ensures
        depth_items(xs, n) <= b,
    decreases n,
{
    if n > 0 {
        lemma_depth_items_max(xs, (n - 1) as nat, b);
    }
}

/// A value found under a key of an object is shallower than the object.
pub proof fn lemma_lookup_depth(v: JVal, k: Seq<char>)
    requires
        lookup(obj_of(v), k) is Some,
    ensures
        depth(lookup(obj_of(v), k)->0) < depth(v),
{
    let es = obj_of(v);
    crate::address::lemma_key_index_from(es, k, 0);
    let i = key_index(es, k)->0;
    lemma_depth_entries_bound(es, es.len(), i);
}

/// An element of an array is shallower than the array.
pub proof fn lemma_element_depth(v: JVal, i: int)
    requires
        0 <= i < arr_of(v).len(),
    ensures
        depth(arr_of(v)[i]) < depth(v),
{
    let xs = arr_of(v);
    lemma_depth_items_bound(xs, xs.len(), i);
}

pub proof fn lemma_key_column(vals: Seq<JVal>, k: Seq<char>, n: nat)
    requires
        n <= vals.len(),
    ensures
        key_column(vals, k, n).0.len() == key_column(vals, k, n).1.len(),
        forall|m: int|
            0 <= m < key_column(vals, k, n).1.len() ==> #[trigger] key_column(vals, k, n).1[m] < n,
        forall|m: int|
            0 <= m < key_column(vals, k, n).0.len() ==> depth(#[trigger] key_column(vals, k, n).0[m])
                < max_depth(vals),
    decreases n,
{
    if n > 0 {
        lemma_key_column(vals, k, (n - 1) as nat);
        if lookup(obj_of(vals[n - 1]), k) is Some {
            lemma_lookup_depth(vals[n - 1], k);
            lemma_depth_items_bound(vals, vals.len(), n - 1);
        }
    }
}

pub proof fn lemma_set_column(vals: Seq<JVal>, j: nat, n: nat)
    requires
        n <= vals.len(),
    ensures
        set_column(vals, j, n).0.len() == set_column(vals, j, n).1.len(),
        forall|m: int|
            0 <= m < set_column(vals, j, n).1.len() ==> #[trigger] set_column(vals, j, n).1[m] < n,
        forall|m: int|
            0 <= m < set_column(vals, j, n).0.len() ==> depth(#[trigger] set_column(vals, j, n).0[m])
                < max_depth(vals),
    decreases n,
{
    if n > 0 {
        lemma_set_column(vals, j, (n - 1) as nat);
        if arr_of(vals[n - 1]).len() > j {
            lemma_element_depth(vals[n - 1], j as int);
            lemma_depth_items_bound(vals, vals.len(), n - 1);
        }
    }
}

pub proof fn lemma_array_column(vals: Seq<JVal>, i: int)
    requires
        all_arrays(vals),
        same_lengths(vals),
        vals.len() > 0,
        0 <= i < arr_of(vals[0]).len(),
    ensures
        forall|m: int|
            0 <= m < vals.len() ==> depth(#[trigger] array_column(vals, i)[m]) < max_depth(vals),
{
    assert forall|m: int| 0 <= m < vals.len() implies depth(#[trigger] array_column(vals, i)[m])
        < max_depth(vals) by {
        assert(arr_of(vals[m]).len() == arr_of(vals[0]).len());
        lemma_element_depth(vals[m], i);
        lemma_depth_items_bound(vals, vals.len(), m);
    }
}

/// The child values a column yields are less deep than `d` allows the
/// parent.
pub proof fn lemma_column_fits(col: Seq<JVal>, vals: Seq<JVal>, d: nat)
    requires
        max_depth(vals) <= d,
        forall|m: int| 0 <= m < col.len() ==> depth(#[trigger] col[m]) < max_depth(vals),
    ensures
        max_depth(col) <= (d - 1) as nat,
{
    lemma_depth_items_max(col, col.len(), (d - 1) as nat);
}

/// Well-formed observations over `n` values: indices and values pair up,
/// and every index names one of the values.
pub open spec fn obs_wf(o: Seq<ObsV>, n: nat) -> bool {
    forall|h: int|
        0 <= h < o.len() ==> (#[trigger] o[h]).0.len() == o[h].1.len() && forall|k: int|
            0 <= k < o[h].0.len() ==> #[trigger] o[h].0[k] < n
}

pub proof fn lemma_remap_wf(o: Seq<ObsV>, parents: Seq<nat>, m: nat, n: nat)
    requires
        obs_wf(o, m),
        parents.len() == m,
        forall|k: int| 0 <= k < m ==> #[trigger] parents[k] < n,
    ensures
        obs_wf(remap(o, parents), n),
{
    assert forall|h: int| 0 <= h < remap(o, parents).len() implies (#[trigger] remap(
        o,
        parents,
    )[h]).0.len() == remap(o, parents)[h].1.len() && forall|k: int|
        0 <= k < remap(o, parents)[h].0.len() ==> #[trigger] remap(o, parents)[h].0[k] < n by {
        assert(o[h].0.len() == o[h].1.len());
        assert forall|k: int| 0 <= k < remap(o, parents)[h].0.len() implies #[trigger] remap(
            o,
            parents,
        )[h].0[k] < n by {
            assert(o[h].0[k] < m);
        }
    }
}

/// Every observation anti-unification records pairs each value with the
/// instance it came from, and names an instance in scope.
pub proof fn lemma_au_wf(vals: Seq<JVal>, base: nat, d: nat)
    ensures
        obs_wf(au(vals, base, d).1, vals.len()),
    decreases d, 1nat, 0nat,
{
    if d == 0 || vals.len() == 0 {
    } else if all_equal(vals) {
    } else if all_objects(vals) {
        let keys = union_keys(vals, vals.len());
        lemma_au_fields_wf(vals, keys, base, d, keys.len());
    } else if all_arrays(vals) && elements_all_objects(vals) {
        lemma_au_clusters_wf(vals, base, d, max_len(vals, vals.len()));
    } else if all_arrays(vals) && same_lengths(vals) {
        lemma_au_columns_wf(vals, base, d, arr_of(vals[0]).len());
    }
}

pub proof fn lemma_au_fields_wf(vals: Seq<JVal>, keys: Seq<Seq<char>>, base: nat, d: nat, n: nat)
    ensures
        obs_wf(au_fields(vals, keys, base, d, n).1, vals.len()),
    decreases d, 0nat, n,
{
    if d == 0 || n == 0 || n > keys.len() {
    } else {
        let prev = au_fields(vals, keys, base, d, (n - 1) as nat);
        lemma_au_fields_wf(vals, keys, base, d, (n - 1) as nat);
        let col = key_column(vals, keys[n - 1], vals.len());
        lemma_key_column(vals, keys[n - 1], vals.len());
        let ch = au(col.0, base + prev.1.len(), (d - 1) as nat);
        lemma_au_wf(col.0, base + prev.1.len(), (d - 1) as nat);
        lemma_remap_wf(ch.1, col.1, col.0.len(), vals.len());
        let r = prev.1 + remap(ch.1, col.1);
        assert forall|h: int| 0 <= h < r.len() implies (#[trigger] r[h]).0.len() == r[h].1.len()
            && forall|k: int| 0 <= k < r[h].0.len() ==> #[trigger] r[h].0[k] < vals.len() by {
            if h < prev.1.len() {
                assert(r[h] == prev.1[h]);
            } else {
                assert(r[h] == remap(ch.1, col.1)[h - prev.1.len()]);
            }
        }
    }
}

pub proof fn lemma_au_columns_wf(vals: Seq<JVal>, base: nat, d: nat, n: nat)
    ensures
        obs_wf(au_columns(vals, base, d, n).1, vals.len()),
    decreases d, 0nat, n,
{
    if d == 0 || n == 0 {
    } else {
        let prev = au_columns(vals, base, d, (n - 1) as nat);
        lemma_au_columns_wf(vals, base, d, (n - 1) as nat);
        let ch = au(array_column(vals, n - 1), base + prev.1.len(), (d - 1) as nat);
        lemma_au_wf(array_column(vals, n - 1), base + prev.1.len(), (d - 1) as nat);
        let r = prev.1 + ch.1;
        assert forall|h: int| 0 <= h < r.len() implies (#[trigger] r[h]).0.len() == r[h].1.len()
            && forall|k: int| 0 <= k < r[h].0.len() ==> #[trigger] r[h].0[k] < vals.len() by {
            if h < prev.1.len() {
                assert(r[h] == prev.1[h]);
            } else {
                assert(r[h] == ch.1[h - prev.1.len()]);
            }
        }
    }
}

pub proof fn lemma_au_clusters_wf(vals: Seq<JVal>, base: nat, d: nat, n: nat)
    ensures
        obs_wf(au_clusters(vals, base, d, n).1, vals.len()),
    decreases d, 0nat, n,
{
    if d == 0 || n == 0 {
    } else {
        let prev = au_clusters(vals, base, d, (n - 1) as nat);
        lemma_au_clusters_wf(vals, base, d, (n - 1) as nat);
        let col = set_column(vals, (n - 1) as nat, vals.len());
        lemma_set_column(vals, (n - 1) as nat, vals.len());
        let ch = au(col.0, base + prev.1.len(), (d - 1) as nat);
        lemma_au_wf(col.0, base + prev.1.len(), (d - 1) as nat);
        lemma_remap_wf(ch.1, col.1, col.0.len(), vals.len());
        let r = prev.1 + remap(ch.1, col.1);
        assert forall|h: int| 0 <= h < r.len() implies (#[trigger] r[h]).0.len() == r[h].1.len()
            && forall|k: int| 0 <= k < r[h].0.len() ==> #[trigger] r[h].0[k] < vals.len() by {
            if h < prev.1.len() {
                assert(r[h] == prev.1[h]);
            } else {
                assert(r[h] == remap(ch.1, col.1)[h - prev.1.len()]);
            }
        }
    }
}

/// Where to insert `x` into `s` is before the first greater key.
pub proof fn lemma_insert_field(s: Seq<(Seq<char>, TmplV, nat, nat)>, x: (Seq<char>, TmplV, nat, nat), p: int)
    requires
        0 <= p <= s.len(),
        forall|i: int| 0 <= i < p ==> !chars_lt(x.0, #[trigger] s[i].0),
        p < s.len() ==> chars_lt(x.0, s[p].0),
    ensures
        insert_field(s, x) == s.take(p) + seq![x] + s.skip(p),
    decreases s.len(),
{
    if s.len() == 0 {
        assert(s.take(p) + seq![x] + s.skip(p) =~= seq![x]);
    } else if p == 0 {
        assert(s.take(p) + seq![x] + s.skip(p) =~= seq![x] + s);
    } else {
        assert(!chars_lt(x.0, s[0].0));
        let t = s.drop_first();
        assert forall|i: int| 0 <= i < p - 1 implies !chars_lt(x.0, #[trigger] t[i].0) by {
            assert(t[i] == s[i + 1]);
        }
        lemma_insert_field(t, x, p - 1);
        assert(s.take(p) + seq![x] + s.skip(p) =~= seq![s[0]] + (t.take(p - 1) + seq![x] + t.skip(
            p - 1,
        )));
    }
}


// ---------------------------------------------------------------------------
// The template generalises its instances
// ---------------------------------------------------------------------------

/// Some field of `fs` has key `k`.
pub open spec fn has_field(fs: Seq<(Seq<char>, TmplV, nat, nat)>, k: Seq<char>) -> bool {
    exists|j: int| 0 <= j < fs.len() && (#[trigger] fs[j]).0 == k
}

/// `t` generalises `v`: a literal is `v` itself; a hole stands for any
/// value; an object's fields cover every key of `v`, each field `v` has
/// generalises its value there, and each field `v` lacks is optional; a
/// positional array has `v`'s length and generalises it element by
/// element; an unordered array has a cluster for each element of `v` that
/// generalises it, and every cluster past `v`'s length is optional.
pub open spec fn generalises(t: TmplV, v: JVal) -> bool
    decreases t,
{
    match t {
        TmplV::Literal(l) => v == l,
        TmplV::Hole(_) => true,
        TmplV::Object(fs) => match v {
            JVal::Obj(es) => {
                &&& forall|p: int| 0 <= p < es.len() ==> has_field(fs, (#[trigger] es[p]).0)
                &&& forall|j: int|
                    0 <= j < fs.len() ==> match lookup(es, (#[trigger] fs[j]).0) {
                        Some(c) => generalises(fs[j].1, c),
                        None => fs[j].2 < fs[j].3,
                    }
            },
            _ => false,
        },
        TmplV::Array(ts) => match v {
            JVal::Arr(xs) => xs.len() == ts.len() && forall|j: int| 0 <= j < ts.len() ==> generalises(#[trigger] ts[j], xs[j]),
            _ => false,
        },
        TmplV::Unordered(cs) => match v {
            JVal::Arr(xs) => xs.len() <= cs.len() && forall|j: int|
                0 <= j < cs.len() ==> if j < xs.len() {
                    generalises((#[trigger] cs[j]).0, xs[j])
                } else {
                    cs[j].1 < cs[j].2
                },
            _ => false,
        },
    }
}

/// What a field says of an object's entries `es`.
pub open spec fn field_fits(f: (Seq<char>, TmplV, nat, nat), es: Seq<(Seq<char>, JVal)>) -> bool {
    match lookup(es, f.0) {
        Some(c) => generalises(f.1, c),
        None => f.2 < f.3,
    }
}

proof fn lemma_key_column_members(vals: Seq<JVal>, k: Seq<char>, n: nat)
    requires
        n <= vals.len(),
    ensures
        key_column(vals, k, n).0.len() == key_column(vals, k, n).1.len(),
        key_column(vals, k, n).0.len() <= n,
        forall|i: int|
            0 <= i < n && lookup(obj_of(vals[i]), k) is Some ==> exists|p: int|
                0 <= p < key_column(vals, k, n).0.len() && key_column(vals, k, n).1[p] == i
                    && #[trigger] key_column(vals, k, n).0[p] == lookup(obj_of(vals[i]), k)->0,
        (exists|i: int| 0 <= i < n && #[trigger] lookup(obj_of(vals[i]), k) is None) ==> key_column(
            vals,
            k,
            n,
        ).0.len() < n,
    decreases n,
{
    if n > 0 {
        let prev = key_column(vals, k, (n - 1) as nat);
        lemma_key_column_members(vals, k, (n - 1) as nat);
        let cur = key_column(vals, k, n);
        assert forall|i: int|
            0 <= i < n && lookup(obj_of(vals[i]), k) is Some implies exists|p: int|
                0 <= p < cur.0.len() && cur.1[p] == i && #[trigger] cur.0[p] == lookup(obj_of(vals[i]), k)->0 by {
            if i < n - 1 {
                let p = choose|p: int|
                    0 <= p < prev.0.len() && prev.1[p] == i && #[trigger] prev.0[p] == lookup(obj_of(vals[i]), k)->0;
                assert(cur.0[p] == prev.0[p] && cur.1[p] == prev.1[p]);
            } else {
                let p = prev.0.len() as int;
                assert(cur.0[p] == lookup(obj_of(vals[i]), k)->0);
            }
        }
        if exists|i: int| 0 <= i < n && #[trigger] lookup(obj_of(vals[i]), k) is None {
            let i = choose|i: int| 0 <= i < n && #[trigger] lookup(obj_of(vals[i]), k) is None;
            if i == n - 1 {
            } else {
                assert(exists|i: int| 0 <= i < n - 1 && #[trigger] lookup(obj_of(vals[i]), k) is None);
            }
        }
    }
}

proof fn lemma_set_column_members(vals: Seq<JVal>, j: nat, n: nat)
    requires
        n <= vals.len(),
    ensures
        set_column(vals, j, n).0.len() == set_column(vals, j, n).1.len(),
        set_column(vals, j, n).0.len() <= n,
        forall|i: int|
            0 <= i < n && arr_of(vals[i]).len() > j ==> exists|p: int|
                0 <= p < set_column(vals, j, n).0.len() && set_column(vals, j, n).1[p] == i
                    && #[trigger] set_column(vals, j, n).0[p] == arr_of(vals[i])[j as int],
        (exists|i: int| 0 <= i < n && #[trigger] arr_of(vals[i]).len() <= j) ==> set_column(vals, j, n).0.len() < n,
    decreases n,
{
    if n > 0 {
        let prev = set_column(vals, j, (n - 1) as nat);
        lemma_set_column_members(vals, j, (n - 1) as nat);
        let cur = set_column(vals, j, n);
        assert forall|i: int| 0 <= i < n && arr_of(vals[i]).len() > j implies exists|p: int|
            0 <= p < cur.0.len() && cur.1[p] == i && #[trigger] cur.0[p] == arr_of(vals[i])[j as int] by {
            if i < n - 1 {
                let p = choose|p: int|
                    0 <= p < prev.0.len() && prev.1[p] == i && #[trigger] prev.0[p] == arr_of(vals[i])[j as int];
                assert(cur.0[p] == prev.0[p] && cur.1[p] == prev.1[p]);
            } else {
                let p = prev.0.len() as int;
                assert(cur.0[p] == arr_of(vals[i])[j as int]);
            }
        }
        if exists|i: int| 0 <= i < n && #[trigger] arr_of(vals[i]).len() <= j {
            let i = choose|i: int| 0 <= i < n && #[trigger] arr_of(vals[i]).len() <= j;
            if i < n - 1 {
                assert(exists|i: int| 0 <= i < n - 1 && #[trigger] arr_of(vals[i]).len() <= j);
            }
        }
    }
}

proof fn lemma_add_keys_complete(acc: Seq<Seq<char>>, es: Seq<(Seq<char>, JVal)>, m: nat)
    requires
        m <= es.len(),
    ensures
        forall|x: Seq<char>| acc.contains(x) ==> #[trigger] add_keys(acc, es, m).contains(x),
        forall|p: int| 0 <= p < m ==> add_keys(acc, es, m).contains(#[trigger] es[p].0),
    decreases m,
{
    if m > 0 {
        lemma_add_keys_complete(acc, es, (m - 1) as nat);
        let a = add_keys(acc, es, (m - 1) as nat);
        let b = add_keys(acc, es, m);
        assert forall|x: Seq<char>| a.contains(x) implies b.contains(x) by {
            if !a.contains(es[m - 1].0) {
                let q = choose|q: int| 0 <= q < a.len() && a[q] == x;
                assert(a.push(es[m - 1].0)[q] == x);
            }
        }
        if !a.contains(es[m - 1].0) {
            assert(a.push(es[m - 1].0)[a.len() as int] == es[m - 1].0);
        }
        assert forall|x: Seq<char>| acc.contains(x) implies #[trigger] b.contains(x) by {
            assert(add_keys(acc, es, (m - 1) as nat).contains(x));
        }
        assert forall|p: int| 0 <= p < m implies b.contains(#[trigger] es[p].0) by {
            if p < m - 1 {
                assert(a.contains(es[p].0));
            }
        }
    }
}

proof fn lemma_union_keys_complete(vals: Seq<JVal>, n: nat)
    requires
        n <= vals.len(),
    ensures
        forall|i: int, p: int|
            0 <= i < n && 0 <= p < obj_of(vals[i]).len() ==> union_keys(vals, n).contains(
                #[trigger] obj_of(vals[i])[p].0,
            ),
    decreases n,
{
    if n > 0 {
        lemma_union_keys_complete(vals, (n - 1) as nat);
        let es = obj_of(vals[n - 1]);
        lemma_add_keys_complete(union_keys(vals, (n - 1) as nat), es, es.len());
    }
}

proof fn lemma_insert_field_members(s: Seq<(Seq<char>, TmplV, nat, nat)>, x: (Seq<char>, TmplV, nat, nat))
    ensures
        insert_field(s, x).len() == s.len() + 1,
        insert_field(s, x).contains(x),
        forall|y: (Seq<char>, TmplV, nat, nat)| s.contains(y) ==> #[trigger] insert_field(s, x).contains(y),
        forall|y: (Seq<char>, TmplV, nat, nat)| #[trigger] insert_field(s, x).contains(y) ==> y == x || s.contains(y),
    decreases s.len(),
{
    if s.len() == 0 {
        assert(insert_field(s, x)[0] == x);
    } else if chars_lt(x.0, s[0].0) {
        let r = seq![x] + s;
        assert(r[0] == x);
        assert forall|y| s.contains(y) implies #[trigger] r.contains(y) by {
            let q = choose|q: int| 0 <= q < s.len() && s[q] == y;
            assert(r[q + 1] == y);
        }
        assert forall|y| #[trigger] r.contains(y) implies y == x || s.contains(y) by {
            let q = choose|q: int| 0 <= q < r.len() && r[q] == y;
            if q > 0 {
                assert(s[q - 1] == y);
            }
        }
    } else {
        let t = s.drop_first();
        lemma_insert_field_members(t, x);
        let it = insert_field(t, x);
        let r = seq![s[0]] + it;
        assert(insert_field(s, x) == r);
        let qx = choose|q: int| 0 <= q < it.len() && it[q] == x;
        assert(r[qx + 1] == x);
        assert forall|y| s.contains(y) implies #[trigger] r.contains(y) by {
            let q = choose|q: int| 0 <= q < s.len() && s[q] == y;
            if q == 0 {
                assert(r[0] == y);
            } else {
                assert(t[q - 1] == y);
                assert(t.contains(y));
                assert(insert_field(t, x).contains(y));
                assert(it.contains(y));
                let q2 = choose|q2: int| 0 <= q2 < it.len() && it[q2] == y;
                assert(r[q2 + 1] == y);
            }
        }
        assert forall|y| #[trigger] r.contains(y) implies y == x || s.contains(y) by {
            let q = choose|q: int| 0 <= q < r.len() && r[q] == y;
            if q == 0 {
                assert(s[0] == y);
            } else {
                assert(it[q - 1] == y);
                assert(it.contains(y));
                if y != x {
                    assert(t.contains(y));
                    let q2 = choose|q2: int| 0 <= q2 < t.len() && t[q2] == y;
                    assert(s[q2 + 1] == y);
                }
            }
        }
    }
}

proof fn lemma_sort_fields_members(s: Seq<(Seq<char>, TmplV, nat, nat)>)
    ensures
        sort_fields(s).len() == s.len(),
        forall|y: (Seq<char>, TmplV, nat, nat)| #[trigger] sort_fields(s).contains(y) <==> s.contains(y),
    decreases s.len(),
{
    if s.len() > 0 {
        let a = s.drop_last();
        lemma_sort_fields_members(a);
        lemma_insert_field_members(sort_fields(a), s.last());
        assert forall|y| #[trigger] sort_fields(s).contains(y) <==> s.contains(y) by {
            if sort_fields(s).contains(y) {
                if y == s.last() {
                    assert(s[s.len() - 1] == y);
                } else {
                    assert(sort_fields(a).contains(y));
                    let q = choose|q: int| 0 <= q < a.len() && a[q] == y;
                    assert(s[q] == y);
                }
            }
            if s.contains(y) {
                let q = choose|q: int| 0 <= q < s.len() && s[q] == y;
                if q < s.len() - 1 {
                    assert(a[q] == y);
                    assert(a.contains(y));
                    assert(sort_fields(a).contains(y));
                }
            }
        }
    }
}

proof fn lemma_max_len_bound(vals: Seq<JVal>, n: nat)
    requires
        n <= vals.len(),
    ensures
        forall|i: int| 0 <= i < n ==> #[trigger] arr_of(vals[i]).len() <= max_len(vals, n),
    decreases n,
{
    if n > 0 {
        lemma_max_len_bound(vals, (n - 1) as nat);
    }
}

/// Anti-unification's template generalises each of its values.
pub proof fn lemma_au_generalises(vals: Seq<JVal>, base: nat, d: nat)
    ensures
        forall|i: int| 0 <= i < vals.len() ==> generalises(au(vals, base, d).0, #[trigger] vals[i]),
    decreases d, 1nat, 0nat,
{
    if d == 0 || vals.len() == 0 {
    } else if all_equal(vals) {
        assert forall|i: int| 0 <= i < vals.len() implies generalises(au(vals, base, d).0, #[trigger] vals[i]) by {
            assert(vals[i] == vals[0]);
        }
    } else if all_objects(vals) {
        let keys = union_keys(vals, vals.len());
        let r = au_fields(vals, keys, base, d, keys.len());
        lemma_fields_generalise(vals, keys, base, d, keys.len());
        lemma_union_keys_complete(vals, vals.len());
        lemma_sort_fields_members(r.0);
        let fs = sort_fields(r.0);
        assert forall|i: int| 0 <= i < vals.len() implies generalises(au(vals, base, d).0, #[trigger] vals[i]) by {
            let es = obj_of(vals[i]);
            assert(vals[i] is Obj);
            assert(vals[i] == JVal::Obj(es));
            assert forall|p: int| 0 <= p < es.len() implies has_field(fs, (#[trigger] es[p]).0) by {
                assert(keys.contains(es[p].0));
                let q = choose|q: int| 0 <= q < keys.len() && keys[q] == es[p].0;
                assert(r.0[q].0 == keys[q]);
                assert(r.0.contains(r.0[q]));
                assert(fs.contains(r.0[q]));
                let w = choose|w: int| 0 <= w < fs.len() && fs[w] == r.0[q];
                assert(fs[w].0 == es[p].0);
            }
            assert forall|j: int| 0 <= j < fs.len() implies match lookup(es, (#[trigger] fs[j]).0) {
                Some(c) => generalises(fs[j].1, c),
                None => fs[j].2 < fs[j].3,
            } by {
                assert(fs.contains(fs[j]));
                assert(r.0.contains(fs[j]));
                let q = choose|q: int| 0 <= q < r.0.len() && r.0[q] == fs[j];
                assert(field_fits(r.0[q], es));
            }
        }
    } else if all_arrays(vals) && elements_all_objects(vals) {
        let n = max_len(vals, vals.len());
        lemma_clusters_generalise(vals, base, d, n);
        lemma_max_len_bound(vals, vals.len());
        let cs = au_clusters(vals, base, d, n).0;
        assert forall|i: int| 0 <= i < vals.len() implies generalises(au(vals, base, d).0, #[trigger] vals[i]) by {
            assert(vals[i] is Arr);
            assert(vals[i] == JVal::Arr(arr_of(vals[i])));
            assert(arr_of(vals[i]).len() <= n);
        }
    } else if all_arrays(vals) && same_lengths(vals) {
        let n = arr_of(vals[0]).len();
        lemma_columns_generalise(vals, base, d, n);
        assert forall|i: int| 0 <= i < vals.len() implies generalises(au(vals, base, d).0, #[trigger] vals[i]) by {
            assert(vals[i] is Arr);
            assert(vals[i] == JVal::Arr(arr_of(vals[i])));
            assert(arr_of(vals[i]).len() == n);
        }
    }
}

proof fn lemma_fields_generalise(vals: Seq<JVal>, keys: Seq<Seq<char>>, base: nat, d: nat, n: nat)
    requires
        d > 0,
        n <= keys.len(),
    ensures
        au_fields(vals, keys, base, d, n).0.len() == n,
        forall|q: int| 0 <= q < n ==> (#[trigger] au_fields(vals, keys, base, d, n).0[q]).0 == keys[q],
        forall|q: int, i: int|
            0 <= q < n && 0 <= i < vals.len() ==> field_fits(
                #[trigger] au_fields(vals, keys, base, d, n).0[q],
                obj_of(#[trigger] vals[i]),
            ),
    decreases d, 0nat, n,
{
    if n > 0 {
        let prev = au_fields(vals, keys, base, d, (n - 1) as nat);
        lemma_fields_generalise(vals, keys, base, d, (n - 1) as nat);
        let k = keys[n - 1];
        let col = key_column(vals, k, vals.len());
        lemma_key_column_members(vals, k, vals.len());
        let ch = au(col.0, base + prev.1.len(), (d - 1) as nat);
        lemma_au_generalises(col.0, base + prev.1.len(), (d - 1) as nat);
        let cur = au_fields(vals, keys, base, d, n);
        assert(cur.0 == prev.0.push((k, ch.0, col.0.len(), vals.len())));
        assert forall|q: int, i: int| 0 <= q < n && 0 <= i < vals.len() implies field_fits(
            #[trigger] cur.0[q],
            obj_of(#[trigger] vals[i]),
        ) by {
            if q < n - 1 {
                assert(cur.0[q] == prev.0[q]);
            } else {
                match lookup(obj_of(vals[i]), k) {
                    Some(c) => {
                        let p = choose|p: int|
                            0 <= p < col.0.len() && col.1[p] == i && #[trigger] col.0[p] == lookup(obj_of(vals[i]), k)->0;
                        assert(generalises(ch.0, col.0[p]));
                    },
                    None => {
                        assert(exists|i: int| 0 <= i < vals.len() && #[trigger] lookup(obj_of(vals[i]), k) is None);
                    },
                }
            }
        }
        assert forall|q: int| 0 <= q < n implies (#[trigger] cur.0[q]).0 == keys[q] by {
            if q < n - 1 {
                assert(cur.0[q] == prev.0[q]);
            }
        }
    }
}

proof fn lemma_columns_generalise(vals: Seq<JVal>, base: nat, d: nat, n: nat)
    requires
        d > 0,
    ensures
        au_columns(vals, base, d, n).0.len() == n,
        forall|q: int, i: int|
            0 <= q < n && 0 <= i < vals.len() ==> generalises(
                #[trigger] au_columns(vals, base, d, n).0[q],
                arr_of(#[trigger] vals[i])[q],
            ),
    decreases d, 0nat, n,
{
    if n > 0 {
        let prev = au_columns(vals, base, d, (n - 1) as nat);
        lemma_columns_generalise(vals, base, d, (n - 1) as nat);
        let col = array_column(vals, n - 1);
        lemma_au_generalises(col, base + prev.1.len(), (d - 1) as nat);
        let cur = au_columns(vals, base, d, n);
        assert forall|q: int, i: int| 0 <= q < n && 0 <= i < vals.len() implies generalises(
            #[trigger] cur.0[q],
            arr_of(#[trigger] vals[i])[q],
        ) by {
            if q < n - 1 {
                assert(cur.0[q] == prev.0[q]);
            } else {
                assert(col[i] == arr_of(vals[i])[q]);
            }
        }
    }
}

proof fn lemma_clusters_generalise(vals: Seq<JVal>, base: nat, d: nat, n: nat)
    requires
        d > 0,
    ensures
        au_clusters(vals, base, d, n).0.len() == n,
        forall|q: int, i: int|
            0 <= q < n && 0 <= i < vals.len() ==> if q < arr_of(vals[i]).len() {
                generalises((#[trigger] au_clusters(vals, base, d, n).0[q]).0, arr_of(#[trigger] vals[i])[q])
            } else {
                au_clusters(vals, base, d, n).0[q].1 < au_clusters(vals, base, d, n).0[q].2
            },
    decreases d, 0nat, n,
{
    if n > 0 {
        let prev = au_clusters(vals, base, d, (n - 1) as nat);
        lemma_clusters_generalise(vals, base, d, (n - 1) as nat);
        let j = (n - 1) as nat;
        let col = set_column(vals, j, vals.len());
        lemma_set_column_members(vals, j, vals.len());
        let ch = au(col.0, base + prev.1.len(), (d - 1) as nat);
        lemma_au_generalises(col.0, base + prev.1.len(), (d - 1) as nat);
        let cur = au_clusters(vals, base, d, n);
        assert forall|q: int, i: int| 0 <= q < n && 0 <= i < vals.len() implies if q < arr_of(vals[i]).len() {
            generalises((#[trigger] cur.0[q]).0, arr_of(#[trigger] vals[i])[q])
        } else {
            cur.0[q].1 < cur.0[q].2
        } by {
            if q < n - 1 {
                assert(cur.0[q] == prev.0[q]);
            } else if q < arr_of(vals[i]).len() {
                let p = choose|p: int|
                    0 <= p < col.0.len() && col.1[p] == i && #[trigger] col.0[p] == arr_of(vals[i])[j as int];
                assert(generalises(ch.0, col.0[p]));
            } else {
                assert(exists|i: int| 0 <= i < vals.len() && #[trigger] arr_of(vals[i]).len() <= j);
            }
        }
    }
}

/// Anti-unification generalises every instance: each instance is one of
/// the template's instances (its literals agree, its holes stand for what
/// the instance holds, the fields it lacks are optional).
pub proof fn lemma_template_generalises(vals: Seq<JVal>, i: int)
    requires
        0 <= i < vals.len(),
    ensures
        generalises(anti_unify_spec(vals).0, vals[i]),
{
    lemma_au_generalises(vals, 0, max_depth(vals));
}

// ---------------------------------------------------------------------------
// Executable templates
// ---------------------------------------------------------------------------

/// A template node: the output of anti-unifying a set of values.
#[derive(Debug)]
pub enum Template {
    /// All instances had exactly this literal value at this position.
    Literal(Json),
    /// Instances disagreed at this position. The `id` is an index into the
    /// observations.
    Hole { id: usize },
    /// An object: for each key, sorted by key, whether the key is present
    /// in all instances at this scope (required) or some (optional), plus
    /// the anti-unification of its value over the instances that have it.
    Object(Vec<(String, Field)>),
    /// An array aligned by position.
    Array(Vec<Template>),
    /// An array with set semantics: each `Field` is a cluster of elements
    /// matched across instances, with `present_in / total` counting how
    /// many instances contributed an element to it.
    Unordered(Vec<Field>),
}

#[derive(Debug)]
pub struct Field {
    pub value: Template,
    /// How many instances at the parent's scope had this key.
    pub present_in: usize,
    /// Total instances at the parent's scope.
    pub total: usize,
}

impl Field {
    pub fn is_required(&self) -> (res: bool)
        ensures
            res == (self.present_in == self.total),
    {
        self.present_in == self.total
    }
}

/// Values observed at a single hole: `instance_indices[k]` is the
/// originating instance's index and `values[k]` the value that instance
/// had at this hole.
#[derive(Debug)]
pub struct Observations {
    pub instance_indices: Vec<usize>,
    pub values: Vec<Json>,
}

pub open spec fn nats(v: Seq<usize>) -> Seq<nat> {
    v.map_values(|i: usize| i as nat)
}

impl View for Observations {
    type V = ObsV;

    open spec fn view(&self) -> ObsV {
        (nats(self.instance_indices@), view_list(self.values@))
    }
}

pub open spec fn obs_view(v: Seq<Observations>) -> Seq<ObsV> {
    v.map_values(|o: Observations| o@)
}

pub open spec fn tmpl_view(t: Template) -> TmplV
    decreases t,
{
    match t {
        Template::Literal(j) => TmplV::Literal(j@),
        Template::Hole { id } => TmplV::Hole(id as nat),
        Template::Object(fs) => TmplV::Object(named_fields_view(fs@)),
        Template::Array(ts) => TmplV::Array(tmpls_view(ts@)),
        Template::Unordered(fs) => TmplV::Unordered(fields_view(fs@)),
    }
}

pub open spec fn tmpls_view(v: Seq<Template>) -> Seq<TmplV>
    decreases v,
{
    if v.len() == 0 {
        Seq::empty()
    } else {
        seq![tmpl_view(v[0])] + tmpls_view(v.drop_first())
    }
}

pub open spec fn fields_view(v: Seq<Field>) -> Seq<(TmplV, nat, nat)>
    decreases v,
{
    if v.len() == 0 {
        Seq::empty()
    } else {
        seq![(tmpl_view(v[0].value), v[0].present_in as nat, v[0].total as nat)] + fields_view(
            v.drop_first(),
        )
    }
}

pub open spec fn named_fields_view(v: Seq<(String, Field)>) -> Seq<(Seq<char>, TmplV, nat, nat)>
    decreases v,
{
    if v.len() == 0 {
        Seq::empty()
    } else {
        seq![
            (
                v[0].0@,
                tmpl_view(v[0].1.value),
                v[0].1.present_in as nat,
                v[0].1.total as nat,
            ),
        ] + named_fields_view(v.drop_first())
    }
}

impl View for Template {
    type V = TmplV;

    open spec fn view(&self) -> TmplV {
        tmpl_view(*self)
    }
}

pub broadcast proof fn lemma_tmpls_view(s: Seq<Template>)
    ensures
        #[trigger] tmpls_view(s).len() == s.len(),
        forall|i: int| 0 <= i < s.len() ==> #[trigger] tmpls_view(s)[i] == tmpl_view(s[i]),
    decreases s.len(),
{
    if s.len() > 0 {
        lemma_tmpls_view(s.drop_first());
        assert forall|i: int| 0 <= i < s.len() implies #[trigger] tmpls_view(s)[i] == tmpl_view(
            s[i],
        ) by {
            if i > 0 {
                assert(s[i] == s.drop_first()[i - 1]);
            }
        }
    }
}

pub broadcast proof fn lemma_fields_view(s: Seq<Field>)
    ensures
        #[trigger] fields_view(s).len() == s.len(),
        forall|i: int|
            0 <= i < s.len() ==> #[trigger] fields_view(s)[i] == (
                tmpl_view(s[i].value),
                s[i].present_in as nat,
                s[i].total as nat,
            ),
    decreases s.len(),
{
    if s.len() > 0 {
        lemma_fields_view(s.drop_first());
        assert forall|i: int| 0 <= i < s.len() implies #[trigger] fields_view(s)[i] == (
            tmpl_view(s[i].value),
            s[i].present_in as nat,
            s[i].total as nat,
        ) by {
            if i > 0 {
                assert(s[i] == s.drop_first()[i - 1]);
            }
        }
    }
}

pub broadcast proof fn lemma_named_fields_view(s: Seq<(String, Field)>)
    ensures
        #[trigger] named_fields_view(s).len() == s.len(),
        forall|i: int|
            0 <= i < s.len() ==> #[trigger] named_fields_view(s)[i] == (
                s[i].0@,
                tmpl_view(s[i].1.value),
                s[i].1.present_in as nat,
                s[i].1.total as nat,
            ),
    decreases s.len(),
{
    if s.len() > 0 {
        lemma_named_fields_view(s.drop_first());
        assert forall|i: int| 0 <= i < s.len() implies #[trigger] named_fields_view(s)[i] == (
            s[i].0@,
            tmpl_view(s[i].1.value),
            s[i].1.present_in as nat,
            s[i].1.total as nat,
        ) by {
            if i > 0 {
                assert(s[i] == s.drop_first()[i - 1]);
            }
        }
    }
}

pub broadcast group group_template_view {
    lemma_tmpls_view,
    lemma_fields_view,
    lemma_named_fields_view,
}


// ---------------------------------------------------------------------------
// Executable columns
// ---------------------------------------------------------------------------

fn clone_values(v: &Vec<Json>) -> (res: Vec<Json>)
    ensures
        view_list(res@) == view_list(v@),
{
    let mut out: Vec<Json> = Vec::new();
    let mut i: usize = 0;
    while i < v.len()
        invariant
            i <= v.len(),
            out@.len() == i,
            forall|k: int| 0 <= k < i ==> (#[trigger] out@[k])@ == v@[k]@,
        decreases v.len() - i,
    {
        out.push(json_clone(&v[i]));
        i = i + 1;
    }
    assert(view_list(out@) =~= view_list(v@));
    out
}

fn union_keys_exec(vals: &Vec<Json>) -> (res: Vec<String>)
    requires
        all_objects(view_list(vals@)),
    ensures
        crate::address::strings_view(res@) == union_keys(view_list(vals@), vals@.len() as nat),
{
    let ghost vv = view_list(vals@);
    let mut out: Vec<String> = Vec::new();
    let mut i: usize = 0;
    while i < vals.len()
        invariant
            i <= vals@.len(),
            vv == view_list(vals@),
            all_objects(vv),
            crate::address::strings_view(out@) == union_keys(vv, i as nat),
        decreases vals@.len() - i,
    {
        assert(vv[i as int] is Obj);
        match &vals[i] {
            Json::Object(es) => {
                let ghost ev = view_entries_of(es@);
                assert(obj_of(vv[i as int]) == ev);
                let ghost acc = crate::address::strings_view(out@);
                let mut m: usize = 0;
                while m < es.len()
                    invariant
                        m <= es@.len(),
                        ev == view_entries_of(es@),
                        ev.len() == es@.len(),
                        crate::address::strings_view(out@) == add_keys(acc, ev, m as nat),
                    decreases es@.len() - m,
                {
                    let key = &es[m].key;
                    assert(ev[m as int].0 == key@);
                    let ghost before = crate::address::strings_view(out@);
                    let mut found = false;
                    let mut q: usize = 0;
                    while q < out.len()
                        invariant
                            q <= out@.len(),
                            found <==> exists|r: int| 0 <= r < q && out@[r]@ == key@,
                        decreases out@.len() - q,
                    {
                        if out[q] == *key {
                            found = true;
                        }
                        q = q + 1;
                    }
                    assert(found == before.contains(key@)) by {
                        if found {
                            let r = choose|r: int| 0 <= r < out@.len() && out@[r]@ == key@;
                            assert(before[r] == key@);
                        }
                        if before.contains(key@) {
                            let r = choose|r: int| 0 <= r < before.len() && before[r] == key@;
                            assert(out@[r]@ == key@);
                        }
                    }
                    if !found {
                        out.push(key.clone());
                        assert(crate::address::strings_view(out@) =~= before.push(key@));
                    }
                    m = m + 1;
                }
            },
            _ => {},
        }
        i = i + 1;
    }
    out
}

pub open spec fn view_entries_of(v: Seq<JsonEntry>) -> Seq<(Seq<char>, JVal)> {
    crate::json::view_entries(v)
}

fn key_column_exec(vals: &Vec<Json>, key: &String) -> (res: (Vec<Json>, Vec<usize>))
    ensures
        view_list(res.0@) == key_column(view_list(vals@), key@, vals@.len() as nat).0,
        nats(res.1@) == key_column(view_list(vals@), key@, vals@.len() as nat).1,
{
    let ghost vv = view_list(vals@);
    let mut cv: Vec<Json> = Vec::new();
    let mut ps: Vec<usize> = Vec::new();
    let mut i: usize = 0;
    while i < vals.len()
        invariant
            i <= vals@.len(),
            vv == view_list(vals@),
            view_list(cv@) == key_column(vv, key@, i as nat).0,
            nats(ps@) == key_column(vv, key@, i as nat).1,
        decreases vals@.len() - i,
    {
        let ghost c0 = view_list(cv@);
        let ghost p0 = nats(ps@);
        match &vals[i] {
            Json::Object(es) => {
                assert(obj_of(vv[i as int]) == view_entries_of(es@));
                match crate::address::find_key(es, key) {
                    Some(p) => {
                        assert(view_entries_of(es@)[p as int] == es@[p as int]@);
                        cv.push(json_clone(&es[p].value));
                        ps.push(i);
                        assert(view_list(cv@) =~= c0.push(es@[p as int].value@));
                        assert(nats(ps@) =~= p0.push(i as nat));
                    },
                    None => {},
                }
            },
            _ => {},
        }
        i = i + 1;
    }
    (cv, ps)
}

fn set_column_exec(vals: &Vec<Json>, j: usize) -> (res: (Vec<Json>, Vec<usize>))
    ensures
        view_list(res.0@) == set_column(view_list(vals@), j as nat, vals@.len() as nat).0,
        nats(res.1@) == set_column(view_list(vals@), j as nat, vals@.len() as nat).1,
{
    let ghost vv = view_list(vals@);
    let mut cv: Vec<Json> = Vec::new();
    let mut ps: Vec<usize> = Vec::new();
    let mut i: usize = 0;
    while i < vals.len()
        invariant
            i <= vals@.len(),
            vv == view_list(vals@),
            view_list(cv@) == set_column(vv, j as nat, i as nat).0,
            nats(ps@) == set_column(vv, j as nat, i as nat).1,
        decreases vals@.len() - i,
    {
        let ghost c0 = view_list(cv@);
        let ghost p0 = nats(ps@);
        match &vals[i] {
            Json::Array(xs) => {
                assert(arr_of(vv[i as int]) == view_list(xs@));
                if j < xs.len() {
                    cv.push(json_clone(&xs[j]));
                    ps.push(i);
                    assert(view_list(cv@) =~= c0.push(xs@[j as int]@));
                    assert(nats(ps@) =~= p0.push(i as nat));
                }
            },
            _ => {},
        }
        i = i + 1;
    }
    (cv, ps)
}

fn array_column_exec(vals: &Vec<Json>, j: usize) -> (res: Vec<Json>)
    requires
        all_arrays(view_list(vals@)),
        forall|i: int| 0 <= i < vals@.len() ==> j < arr_of(#[trigger] view_list(vals@)[i]).len(),
    ensures
        view_list(res@) == array_column(view_list(vals@), j as int),
{
    let ghost vv = view_list(vals@);
    let mut cv: Vec<Json> = Vec::new();
    let mut i: usize = 0;
    while i < vals.len()
        invariant
            i <= vals@.len(),
            vv == view_list(vals@),
            all_arrays(vv),
            forall|k: int| 0 <= k < vals@.len() ==> j < arr_of(#[trigger] vv[k]).len(),
            cv@.len() == i,
            forall|k: int| 0 <= k < i ==> (#[trigger] cv@[k])@ == arr_of(vv[k])[j as int],
        decreases vals@.len() - i,
    {
        assert(vv[i as int] is Arr);
        assert(j < arr_of(vv[i as int]).len());
        match &vals[i] {
            Json::Array(xs) => {
                assert(arr_of(vv[i as int]) == view_list(xs@));
                cv.push(json_clone(&xs[j]));
            },
            _ => {},
        }
        i = i + 1;
    }
    assert(view_list(cv@) =~= array_column(vv, j as int));
    cv
}

fn max_len_exec(vals: &Vec<Json>) -> (res: usize)
    ensures
        res == max_len(view_list(vals@), vals@.len() as nat),
{
    let ghost vv = view_list(vals@);
    let mut m: usize = 0;
    let mut i: usize = 0;
    while i < vals.len()
        invariant
            i <= vals@.len(),
            vv == view_list(vals@),
            m == max_len(vv, i as nat),
        decreases vals@.len() - i,
    {
        match &vals[i] {
            Json::Array(xs) => {
                assert(arr_of(vv[i as int]) == view_list(xs@));
                if xs.len() > m {
                    m = xs.len();
                }
            },
            _ => {},
        }
        i = i + 1;
    }
    m
}

/// Rewrite the observations from `mark` on so that their instance indices
/// go through `parents`.
fn remap_tail(obs: &mut Vec<Observations>, mark: usize, parents: &Vec<usize>)
    requires
        mark <= old(obs)@.len(),
        obs_wf(obs_view(old(obs)@).skip(mark as int), parents@.len()),
    ensures
        obs_view(final(obs)@) == obs_view(old(obs)@).take(mark as int) + remap(
            obs_view(old(obs)@).skip(mark as int),
            nats(parents@),
        ),
{
    let ghost ov = obs_view(obs@);
    let tail = obs.split_off(mark);
    let ghost tv = obs_view(tail@);
    assert(obs_view(obs@) =~= ov.take(mark as int));
    assert(tv =~= ov.skip(mark as int));
    let ghost head = obs_view(obs@);
    let mut k: usize = 0;
    while k < tail.len()
        invariant
            k <= tail@.len(),
            tv == obs_view(tail@),
            obs_wf(tv, parents@.len()),
            obs_view(obs@) == head + remap(tv, nats(parents@)).take(k as int),
        decreases tail@.len() - k,
    {
        let o = &tail[k];
        assert(tv[k as int] == o@);
        let mut idx: Vec<usize> = Vec::new();
        let mut q: usize = 0;
        while q < o.instance_indices.len()
            invariant
                q <= o.instance_indices@.len(),
                tv[k as int] == o@,
                k < tv.len(),
                obs_wf(tv, parents@.len()),
                idx@.len() == q,
                forall|r: int|
                    0 <= r < q ==> (#[trigger] idx@[r]) == parents@[o.instance_indices@[r] as int],
            decreases o.instance_indices@.len() - q,
        {
            let l = o.instance_indices[q];
            assert(tv[k as int].0[q as int] == l as nat);
            idx.push(parents[l]);
            q = q + 1;
        }
        assert(nats(idx@) =~= nats(o.instance_indices@).map_values(
            |l: nat| nats(parents@)[l as int],
        ));
        let values = clone_values(&o.values);
        let ghost b1 = obs_view(obs@);
        obs.push(Observations { instance_indices: idx, values });
        assert(obs_view(obs@) =~= b1.push(remap(tv, nats(parents@))[k as int]));
        assert(obs_view(obs@) =~= head + remap(tv, nats(parents@)).take(k + 1));
        k = k + 1;
    }
    assert(remap(tv, nats(parents@)).take(tail@.len() as int) =~= remap(tv, nats(parents@)));
}


// ---------------------------------------------------------------------------
// Columns are never empty where anti-unification takes them
// ---------------------------------------------------------------------------

pub proof fn lemma_add_keys_source(acc: Seq<Seq<char>>, es: Seq<(Seq<char>, JVal)>, m: nat, k: Seq<char>)
    requires
        add_keys(acc, es, m).contains(k),
    ensures
        acc.contains(k) || exists|j: int| 0 <= j < m && j < es.len() && #[trigger] es[j].0 == k,
    decreases m,
{
    if m == 0 || m > es.len() {
    } else {
        let a = add_keys(acc, es, (m - 1) as nat);
        if a.contains(k) {
            lemma_add_keys_source(acc, es, (m - 1) as nat, k);
            if !acc.contains(k) {
                let j = choose|j: int| 0 <= j < m - 1 && j < es.len() && #[trigger] es[j].0 == k;
                assert(es[j].0 == k);
            }
        } else {
            let b = a.push(es[m - 1].0);
            let i = choose|i: int| 0 <= i < b.len() && #[trigger] b[i] == k;
            if i < a.len() {
                assert(a[i] == k);
                assert(a.contains(k));
            }
            assert(es[m - 1].0 == k);
        }
    }
}

pub proof fn lemma_union_keys_source(vals: Seq<JVal>, n: nat, k: Seq<char>)
    requires
        union_keys(vals, n).contains(k),
    ensures
        exists|i: int| 0 <= i < n && i < vals.len() && lookup(obj_of(#[trigger] vals[i]), k) is Some,
    decreases n,
{
    if n == 0 || n > vals.len() {
    } else {
        let es = obj_of(vals[n - 1]);
        lemma_add_keys_source(union_keys(vals, (n - 1) as nat), es, es.len(), k);
        if union_keys(vals, (n - 1) as nat).contains(k) {
            lemma_union_keys_source(vals, (n - 1) as nat, k);
        } else {
            let j = choose|j: int| 0 <= j < es.len() && j < es.len() && #[trigger] es[j].0 == k;
            crate::address::lemma_key_index_from(es, k, 0);
            assert(lookup(obj_of(vals[n - 1]), k) is Some);
        }
    }
}

pub proof fn lemma_key_column_nonempty(vals: Seq<JVal>, k: Seq<char>, n: nat, i: int)
    requires
        0 <= i < n <= vals.len(),
        lookup(obj_of(vals[i]), k) is Some,
    ensures
        key_column(vals, k, n).0.len() > 0,
    decreases n,
{
    if i < n - 1 {
        lemma_key_column_nonempty(vals, k, (n - 1) as nat, i);
    }
}

pub proof fn lemma_max_len_witness(vals: Seq<JVal>, n: nat, j: nat)
    requires
        n <= vals.len(),
        j < max_len(vals, n),
    ensures
        exists|i: int| 0 <= i < n && arr_of(#[trigger] vals[i]).len() > j,
    decreases n,
{
    if n > 0 {
        if arr_of(vals[n - 1]).len() > j {
            assert(arr_of(vals[n - 1]).len() > j);
        } else {
            lemma_max_len_witness(vals, (n - 1) as nat, j);
            let i = choose|i: int| 0 <= i < n - 1 && arr_of(#[trigger] vals[i]).len() > j;
            assert(arr_of(vals[i]).len() > j);
        }
    }
}

pub proof fn lemma_set_column_nonempty(vals: Seq<JVal>, j: nat, n: nat, i: int)
    requires
        0 <= i < n <= vals.len(),
        arr_of(vals[i]).len() > j,
    ensures
        set_column(vals, j, n).0.len() > 0,
    decreases n,
{
    if i < n - 1 {
        lemma_set_column_nonempty(vals, j, (n - 1) as nat, i);
    }
}

// ---------------------------------------------------------------------------
// Executable anti-unification
// ---------------------------------------------------------------------------

fn positions_exec(n: usize) -> (res: Vec<usize>)
    ensures
        nats(res@) == positions(n as nat),
{
    let mut out: Vec<usize> = Vec::new();
    let mut i: usize = 0;
    while i < n
        invariant
            i <= n,
            out@.len() == i,
            forall|k: int| 0 <= k < i ==> #[trigger] out@[k] == k,
        decreases n - i,
    {
        out.push(i);
        i = i + 1;
    }
    assert(nats(out@) =~= positions(n as nat));
    out
}

fn au_rec(vals: &Vec<Json>, obs: &mut Vec<Observations>, Ghost(d): Ghost<nat>) -> (res: Template)
    requires
        vals@.len() > 0,
        max_depth(view_list(vals@)) <= d,
    ensures
        res@ == au(view_list(vals@), old(obs)@.len() as nat, d).0,
        obs_view(final(obs)@) == obs_view(old(obs)@) + au(
            view_list(vals@),
            old(obs)@.len() as nat,
            d,
        ).1,
    decreases d, 1nat,
{
    let ghost vv = view_list(vals@);
    let ghost base = obs@.len() as nat;
    proof {
        lemma_depth_pos(vv[0]);
        lemma_depth_items_bound(vv, vv.len(), 0);
    }
    let mut eq = true;
    let mut i: usize = 1;
    while i < vals.len()
        invariant
            1 <= i <= vals@.len(),
            vv == view_list(vals@),
            eq <==> forall|k: int| 0 <= k < i ==> #[trigger] vv[k] == vv[0],
        decreases vals@.len() - i,
    {
        assert(view_list(vals@)[i as int] == vals@[i as int]@);
        assert(view_list(vals@)[0] == vals@[0]@);
        if !json_eq(&vals[0], &vals[i]) {
            eq = false;
        }
        i = i + 1;
    }
    if eq {
        return Template::Literal(json_clone(&vals[0]));
    }
    let mut objs = true;
    let mut arrs = true;
    let mut i: usize = 0;
    while i < vals.len()
        invariant
            i <= vals@.len(),
            vv == view_list(vals@),
            objs <==> forall|k: int| 0 <= k < i ==> (#[trigger] vv[k]) is Obj,
            arrs <==> forall|k: int| 0 <= k < i ==> (#[trigger] vv[k]) is Arr,
        decreases vals@.len() - i,
    {
        assert(view_list(vals@)[i as int] == vals@[i as int]@);
        match &vals[i] {
            Json::Object(_) => {
                arrs = false;
            },
            Json::Array(_) => {
                objs = false;
            },
            _ => {
                objs = false;
                arrs = false;
            },
        }
        i = i + 1;
    }
    if objs {
        return au_object(vals, obs, Ghost(d));
    }
    if arrs {
        let mut elem_objs = true;
        let mut same = true;
        assert(view_list(vals@)[0] == vals@[0]@);
        let len0 = match &vals[0] {
            Json::Array(xs) => {
                assert(arr_of(vv[0]) == view_list(xs@));
                xs.len()
            },
            _ => 0,
        };
        assert(len0 == arr_of(vv[0]).len());
        let mut i: usize = 0;
        while i < vals.len()
            invariant
                i <= vals@.len(),
                vv == view_list(vals@),
                all_arrays(vv),
                len0 == arr_of(vv[0]).len(),
                elem_objs <==> forall|k: int, j: int|
                    0 <= k < i && 0 <= j < arr_of(vv[k]).len() ==> (#[trigger] arr_of(vv[k])[j]) is Obj,
                same <==> forall|k: int| 0 <= k < i ==> arr_of(#[trigger] vv[k]).len() == len0,
            decreases vals@.len() - i,
        {
            assert(view_list(vals@)[i as int] == vals@[i as int]@);
            match &vals[i] {
                Json::Array(xs) => {
                    assert(arr_of(vv[i as int]) == view_list(xs@));
                    if xs.len() != len0 {
                        same = false;
                    }
                    let mut j: usize = 0;
                    while j < xs.len()
                        invariant
                            j <= xs@.len(),
                            i < vv.len(),
                            arr_of(vv[i as int]) == view_list(xs@),
                            elem_objs <==> (forall|k: int, m: int|
                                0 <= k < i && 0 <= m < arr_of(vv[k]).len() ==> (#[trigger] arr_of(
                                    vv[k],
                                )[m]) is Obj) && (forall|m: int|
                                0 <= m < j ==> (#[trigger] arr_of(vv[i as int])[m]) is Obj),
                        decreases xs@.len() - j,
                    {
                        assert(view_list(xs@)[j as int] == xs@[j as int]@);
                        match &xs[j] {
                            Json::Object(_) => {},
                            _ => {
                                elem_objs = false;
                            },
                        }
                        j = j + 1;
                    }
                },
                _ => {},
            }
            i = i + 1;
        }
        if elem_objs {
            return au_set(vals, obs, Ghost(d));
        }
        if same {
            return au_array(vals, obs, Ghost(d), len0);
        }
    }
    let id = obs.len();
    let idx = positions_exec(vals.len());
    let values = clone_values(vals);
    let ghost o0 = obs_view(obs@);
    obs.push(Observations { instance_indices: idx, values });
    assert(obs_view(obs@) =~= o0 + hole_of(vv, base).1);
    Template::Hole { id }
}

fn au_object(vals: &Vec<Json>, obs: &mut Vec<Observations>, Ghost(d): Ghost<nat>) -> (res: Template)
    requires
        vals@.len() > 0,
        d >= 1,
        max_depth(view_list(vals@)) <= d,
        all_objects(view_list(vals@)),
    ensures
        ({
            let vv = view_list(vals@);
            let keys = union_keys(vv, vv.len());
            let r = au_fields(vv, keys, old(obs)@.len() as nat, d, keys.len());
            &&& res@ == TmplV::Object(sort_fields(r.0))
            &&& obs_view(final(obs)@) == obs_view(old(obs)@) + r.1
        }),
    decreases d, 0nat,
{
    broadcast use group_template_view;

    let ghost vv = view_list(vals@);
    let ghost base = obs@.len() as nat;
    let ghost ov0 = obs_view(obs@);
    let keys = union_keys_exec(vals);
    let ghost kv = crate::address::strings_view(keys@);
    let mut fields: Vec<(String, Field)> = Vec::new();
    let mut n: usize = 0;
    while n < keys.len()
        invariant
            n <= keys@.len(),
            vv == view_list(vals@),
            vals@.len() > 0,
            d >= 1,
            max_depth(vv) <= d,
            kv == crate::address::strings_view(keys@),
            kv == union_keys(vv, vv.len()),
            named_fields_view(fields@) == sort_fields(au_fields(vv, kv, base, d, n as nat).0),
            obs_view(obs@) == ov0 + au_fields(vv, kv, base, d, n as nat).1,
            ov0.len() == base,
        decreases keys@.len() - n,
    {
        let ghost prev = au_fields(vv, kv, base, d, n as nat);
        let (cv, ps) = key_column_exec(vals, &keys[n]);
        let ghost col = key_column(vv, kv[n as int], vv.len());
        proof {
            lemma_key_column(vv, kv[n as int], vv.len());
            lemma_column_fits(col.0, vv, d);
            assert(union_keys(vv, vv.len()).contains(kv[n as int])) by {
                assert(kv[n as int] == kv[n as int]);
            }
            lemma_union_keys_source(vv, vv.len(), kv[n as int]);
            let w = choose|w: int|
                0 <= w < vv.len() && w < vv.len() && lookup(obj_of(#[trigger] vv[w]), kv[n as int]) is Some;
            lemma_key_column_nonempty(vv, kv[n as int], vv.len(), w);
        }
        let mark = obs.len();
        assert(obs_view(obs@).len() == obs@.len());
        assert(mark == base + prev.1.len());
        let child = au_rec(&cv, obs, Ghost((d - 1) as nat));
        let ghost ch = au(col.0, base + prev.1.len(), (d - 1) as nat);
        proof {
            lemma_au_wf(col.0, base + prev.1.len(), (d - 1) as nat);
            assert(obs_view(obs@).skip(mark as int) =~= ch.1);
        }
        remap_tail(obs, mark, &ps);
        assert(obs_view(obs@) =~= ov0 + au_fields(vv, kv, base, d, (n + 1) as nat).1);
        let field = Field { value: child, present_in: cv.len(), total: vals.len() };
        let key = keys[n].clone();
        let ghost x = (kv[n as int], ch.0, col.0.len(), vv.len());
        let ghost sorted = named_fields_view(fields@);
        let kc = chars_of(key.as_str());
        let mut p: usize = 0;
        while p < fields.len() && compare_chars_exec(&kc, &chars_of(fields[p].0.as_str())) >= 0
            invariant
                p <= fields@.len(),
                kc@ == x.0,
                sorted == named_fields_view(fields@),
                forall|i: int| 0 <= i < p ==> !chars_lt(x.0, #[trigger] sorted[i].0),
            decreases fields@.len() - p,
        {
            proof {
                lemma_named_fields_view(fields@);
            }
            assert(named_fields_view(fields@)[p as int].0 == fields@[p as int].0@);
            p = p + 1;
        }
        proof {
            lemma_named_fields_view(fields@);
            if p < fields@.len() {
                assert(named_fields_view(fields@)[p as int].0 == fields@[p as int].0@);
            }
            lemma_insert_field(sorted, x, p as int);
        }
        fields.insert(p, (key, field));
        proof {
            lemma_named_fields_view(fields@);
        }
        assert(named_fields_view(fields@) =~= sorted.take(p as int) + seq![x] + sorted.skip(p as int));
        assert(au_fields(vv, kv, base, d, (n + 1) as nat).0.drop_last() =~= prev.0);
        n = n + 1;
    }
    Template::Object(fields)
}

fn au_array(vals: &Vec<Json>, obs: &mut Vec<Observations>, Ghost(d): Ghost<nat>, len: usize) -> (res: Template)
    requires
        vals@.len() > 0,
        d >= 1,
        max_depth(view_list(vals@)) <= d,
        all_arrays(view_list(vals@)),
        same_lengths(view_list(vals@)),
        len == arr_of(view_list(vals@)[0]).len(),
    ensures
        ({
            let r = au_columns(view_list(vals@), old(obs)@.len() as nat, d, len as nat);
            &&& res@ == TmplV::Array(r.0)
            &&& obs_view(final(obs)@) == obs_view(old(obs)@) + r.1
        }),
    decreases d, 0nat,
{
    broadcast use group_template_view;

    let ghost vv = view_list(vals@);
    let ghost base = obs@.len() as nat;
    let ghost ov0 = obs_view(obs@);
    let mut elements: Vec<Template> = Vec::new();
    let mut i: usize = 0;
    while i < len
        invariant
            i <= len,
            vv == view_list(vals@),
            vals@.len() > 0,
            d >= 1,
            max_depth(vv) <= d,
            all_arrays(vv),
            same_lengths(vv),
            len == arr_of(vv[0]).len(),
            tmpls_view(elements@) == au_columns(vv, base, d, i as nat).0,
            obs_view(obs@) == ov0 + au_columns(vv, base, d, i as nat).1,
            ov0.len() == base,
        decreases len - i,
    {
        let ghost prev = au_columns(vv, base, d, i as nat);
        proof {
            assert forall|k: int| 0 <= k < vals@.len() implies i < arr_of(
                #[trigger] vv[k],
            ).len() by {
                assert(arr_of(vv[k]).len() == arr_of(vv[0]).len());
            }
            lemma_array_column(vv, i as int);
            lemma_column_fits(array_column(vv, i as int), vv, d);
        }
        let cv = array_column_exec(vals, i);
        assert(obs_view(obs@).len() == obs@.len());
        assert(obs@.len() == base + prev.1.len());
        let child = au_rec(&cv, obs, Ghost((d - 1) as nat));
        let ghost t0 = tmpls_view(elements@);
        let ghost e0 = elements@;
        elements.push(child);
        proof {
            lemma_tmpls_view(e0);
            lemma_tmpls_view(elements@);
        }
        assert(tmpls_view(elements@) =~= t0.push(child@));
        assert(obs_view(obs@) =~= ov0 + au_columns(vv, base, d, (i + 1) as nat).1);
        i = i + 1;
    }
    Template::Array(elements)
}

fn au_set(vals: &Vec<Json>, obs: &mut Vec<Observations>, Ghost(d): Ghost<nat>) -> (res: Template)
    requires
        vals@.len() > 0,
        d >= 1,
        max_depth(view_list(vals@)) <= d,
        all_arrays(view_list(vals@)),
    ensures
        ({
            let vv = view_list(vals@);
            let r = au_clusters(vv, old(obs)@.len() as nat, d, max_len(vv, vv.len()));
            &&& res@ == TmplV::Unordered(r.0)
            &&& obs_view(final(obs)@) == obs_view(old(obs)@) + r.1
        }),
    decreases d, 0nat,
{
    broadcast use group_template_view;

    let ghost vv = view_list(vals@);
    let ghost base = obs@.len() as nat;
    let ghost ov0 = obs_view(obs@);
    let m = max_len_exec(vals);
    let mut fields: Vec<Field> = Vec::new();
    let mut j: usize = 0;
    while j < m
        invariant
            j <= m,
            m == max_len(vv, vv.len()),
            vv == view_list(vals@),
            vals@.len() > 0,
            d >= 1,
            max_depth(vv) <= d,
            fields_view(fields@) == au_clusters(vv, base, d, j as nat).0,
            obs_view(obs@) == ov0 + au_clusters(vv, base, d, j as nat).1,
            ov0.len() == base,
        decreases m - j,
    {
        let ghost prev = au_clusters(vv, base, d, j as nat);
        let (cv, ps) = set_column_exec(vals, j);
        let ghost col = set_column(vv, j as nat, vv.len());
        proof {
            lemma_set_column(vv, j as nat, vv.len());
            lemma_column_fits(col.0, vv, d);
            lemma_max_len_witness(vv, vv.len(), j as nat);
            let w = choose|w: int| 0 <= w < vv.len() && arr_of(#[trigger] vv[w]).len() > j;
            lemma_set_column_nonempty(vv, j as nat, vv.len(), w);
        }
        let mark = obs.len();
        assert(obs_view(obs@).len() == obs@.len());
        assert(mark == base + prev.1.len());
        let child = au_rec(&cv, obs, Ghost((d - 1) as nat));
        let ghost ch = au(col.0, base + prev.1.len(), (d - 1) as nat);
        proof {
            lemma_au_wf(col.0, base + prev.1.len(), (d - 1) as nat);
            assert(obs_view(obs@).skip(mark as int) =~= ch.1);
        }
        remap_tail(obs, mark, &ps);
        assert(obs_view(obs@) =~= ov0 + au_clusters(vv, base, d, (j + 1) as nat).1);
        let ghost f0 = fields_view(fields@);
        let ghost e0 = fields@;
        fields.push(Field { value: child, present_in: cv.len(), total: vals.len() });
        proof {
            lemma_fields_view(e0);
            lemma_fields_view(fields@);
        }
        assert(fields_view(fields@) =~= f0.push((ch.0, col.0.len(), vv.len())));
        j = j + 1;
    }
    Template::Unordered(fields)
}

/// Anti-unify a non-empty set of values into a template, along with the
/// observations of every hole (a hole's id is its index among them).
pub fn anti_unify(instances: &Vec<Json>) -> (res: (Template, Vec<Observations>))
    requires
        instances@.len() > 0,
    ensures
        res.0@ == anti_unify_spec(view_list(instances@)).0,
        obs_view(res.1@) == anti_unify_spec(view_list(instances@)).1,
        obs_wf(obs_view(res.1@), instances@.len() as nat),
        forall|i: int| 0 <= i < instances@.len() ==> generalises(res.0@, #[trigger] instances@[i]@),
{
    let mut obs: Vec<Observations> = Vec::new();
    let ghost d = max_depth(view_list(instances@));
    let t = au_rec(instances, &mut obs, Ghost(d));
    proof {
        lemma_au_generalises(view_list(instances@), 0, d);
        assert forall|i: int| 0 <= i < instances@.len() implies generalises(t@, #[trigger] instances@[i]@) by {
            lemma_view_list_index(instances@, i);
        }
        lemma_au_wf(view_list(instances@), 0, d);
        assert(obs_view(obs@) =~= au(view_list(instances@), 0, d).1);
    }
    (t, obs)
}

} // verus!
