//! Shared file-filtering logic used by search and build.
//!
//! A filter is (where-terms, match-predicates). A file passes the filter iff:
//!   - for every term whose scope applies to the file's pattern,
//!     at least one of its needles has a hit in the parsed tree;
//!   - for every predicate whose scope applies to the file's pattern,
//!     at least one address satisfies it in the parsed tree.
//!
//! "Applies to the file's pattern" uses the same substring-scope semantics
//! as `Term::applies_to_pattern` / `MatchPredicate::applies_to_pattern`.

use vstd::prelude::*;

use crate::address::{find_addresses, match_sites};
use crate::json::{JVal, Json};
use crate::match_pred::{MatchPredicate, PredV, find_match_addresses, match_addresses, scope_applies};
use crate::term::{Term, TermV};

verus! {

/// Some needle of `t` occurs somewhere in `tree`.
pub open spec fn term_hits_tree(t: TermV, tree: JVal) -> bool {
    exists|j: int|
        0 <= j < t.needles.len() && #[trigger] match_sites(tree, Seq::empty(), t.needles[j]).len()
            > 0
}

/// Whether a tree passes the filter, for a file of the given pattern.
pub open spec fn passes(terms: Seq<TermV>, preds: Seq<PredV>, pattern: Seq<char>, tree: JVal) -> bool {
    &&& forall|i: int|
        0 <= i < terms.len() && scope_applies(terms[i].scope, pattern) ==> term_hits_tree(
            #[trigger] terms[i],
            tree,
        )
    &&& forall|i: int|
        0 <= i < preds.len() && scope_applies(preds[i].scope, pattern) ==> match_addresses(
            tree,
            #[trigger] preds[i],
        ).len() > 0
}

pub open spec fn terms_view(ts: Seq<Term>) -> Seq<TermV> {
    ts.map_values(|t: Term| t@)
}

pub open spec fn preds_view(ps: Seq<MatchPredicate>) -> Seq<PredV> {
    ps.map_values(|p: MatchPredicate| p@)
}

/// A conjunction of where-terms and match predicates.
#[derive(Debug, Default)]
pub struct FileFilter<'a> {
    pub where_terms: &'a [Term],
    pub match_preds: &'a [MatchPredicate],
}

impl FileFilter<'_> {
    pub fn is_empty(&self) -> (res: bool)
        ensures
            res == (self.where_terms@.len() == 0 && self.match_preds@.len() == 0),
    {
        self.where_terms.len() == 0 && self.match_preds.len() == 0
    }

    /// Does this filter apply any constraint to files matching `pattern`?
    /// If not, evaluation can be skipped entirely.
    pub fn applies_to_pattern(&self, pattern: &str) -> (res: bool)
        ensures
            res == ((exists|i: int|
                0 <= i < self.where_terms@.len() && scope_applies(
                    (#[trigger] self.where_terms@[i])@.scope,
                    pattern@,
                )) || (exists|i: int|
                0 <= i < self.match_preds@.len() && scope_applies(
                    (#[trigger] self.match_preds@[i])@.scope,
                    pattern@,
                ))),
    {
        let mut i: usize = 0;
        while i < self.where_terms.len()
            invariant
                i <= self.where_terms@.len(),
                forall|k: int|
                    0 <= k < i ==> !scope_applies(
                        (#[trigger] self.where_terms@[k])@.scope,
                        pattern@,
                    ),
            decreases self.where_terms@.len() - i,
        {
            if self.where_terms[i].applies_to_pattern(pattern) {
                return true;
            }
            i = i + 1;
        }
        let mut j: usize = 0;
        while j < self.match_preds.len()
            invariant
                j <= self.match_preds@.len(),
                forall|k: int|
                    0 <= k < self.where_terms@.len() ==> !scope_applies(
                        (#[trigger] self.where_terms@[k])@.scope,
                        pattern@,
                    ),
                forall|k: int|
                    0 <= k < j ==> !scope_applies(
                        (#[trigger] self.match_preds@[k])@.scope,
                        pattern@,
                    ),
            decreases self.match_preds@.len() - j,
        {
            if self.match_preds[j].applies_to_pattern(pattern) {
                return true;
            }
            j = j + 1;
        }
        false
    }

    /// Evaluate the filter against a parsed tree. A term or predicate
    /// whose scope doesn't apply to the file's pattern is considered
    /// satisfied.
    pub fn evaluate(&self, pattern: &str, tree: &Json) -> (res: bool)
        ensures
            res == passes(
                terms_view(self.where_terms@),
                preds_view(self.match_preds@),
                pattern@,
                tree@,
            ),
    {
        let ghost tv = terms_view(self.where_terms@);
        let ghost pv = preds_view(self.match_preds@);
        let mut i: usize = 0;
        while i < self.where_terms.len()
            invariant
                i <= self.where_terms@.len(),
                tv == terms_view(self.where_terms@),
                forall|k: int|
                    0 <= k < i && scope_applies(tv[k].scope, pattern@) ==> term_hits_tree(
                        #[trigger] tv[k],
                        tree@,
                    ),
            decreases self.where_terms@.len() - i,
        {
            let t = &self.where_terms[i];
            if t.applies_to_pattern(pattern) {
                let mut hit = false;
                let mut j: usize = 0;
                while j < t.needles.len() && !hit
                    invariant
                        j <= t.needles@.len(),
                        hit ==> term_hits_tree(t@, tree@),
                        !hit ==> forall|m: int|
                            0 <= m < j ==> #[trigger] match_sites(
                                tree@,
                                Seq::empty(),
                                t@.needles[m],
                            ).len() == 0,
                    decreases t.needles@.len() - j + (if hit {
                        0int
                    } else {
                        1int
                    }),
                {
                    let found = find_addresses(tree, t.needles[j].as_str());
                    if found.len() > 0 {
                        hit = true;
                        assert(t@.needles[j as int] == t.needles@[j as int]@);
                        assert(match_sites(tree@, Seq::empty(), t@.needles[j as int]).len() > 0);
                    } else {
                        j = j + 1;
                    }
                }
                if !hit {
                    assert(!term_hits_tree(tv[i as int], tree@));
                    return false;
                }
            }
            i = i + 1;
        }
        let mut p: usize = 0;
        while p < self.match_preds.len()
            invariant
                p <= self.match_preds@.len(),
                tv == terms_view(self.where_terms@),
                pv == preds_view(self.match_preds@),
                forall|k: int|
                    0 <= k < tv.len() && scope_applies(tv[k].scope, pattern@) ==> term_hits_tree(
                        #[trigger] tv[k],
                        tree@,
                    ),
                forall|k: int|
                    0 <= k < p && scope_applies(pv[k].scope, pattern@) ==> match_addresses(
                        tree@,
                        #[trigger] pv[k],
                    ).len() > 0,
            decreases self.match_preds@.len() - p,
        {
            let pr = &self.match_preds[p];
            if pr.applies_to_pattern(pattern) {
                let found = find_match_addresses(tree, pr);
                if found.len() == 0 {
                    assert(match_addresses(tree@, pv[p as int]).len() == 0);
                    return false;
                }
            }
            p = p + 1;
        }
        true
    }
}

} // verus!
