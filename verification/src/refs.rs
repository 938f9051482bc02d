//! Reading `git ls-remote` output: the commit a tag or branch names.

use vstd::prelude::*;

use crate::text::{
    chars_of, contains_sub, find_from, find_from_exec, has_sub, is_ws, is_ws_exec, lead_ws,
    lemma_find_from, lemma_lead_ws_bound, slice, string_of, trim_start, trim_start_exec,
};

verus! {

/// A line as `str::lines` yields it when a `\n` ended it: without the `\r`
/// of a `\r\n`.
pub open spec fn strip_cr(l: Seq<char>) -> Seq<char> {
    if l.len() > 0 && l.last() == '\r' {
        l.drop_last()
    } else {
        l
    }
}

/// `str::lines`: the text split at each `\n`, a `\r` before it dropped; no
/// empty line after a final `\n`.
pub open spec fn lines_of(s: Seq<char>) -> Seq<Seq<char>>
    decreases s.len(),
{
    if s.len() == 0 {
        Seq::empty()
    } else {
        proof {
            lemma_find_from(s, '\n', 0);
        }
        match find_from(s, '\n', 0) {
            Some(j) => seq![strip_cr(s.take(j))] + lines_of(s.skip(j + 1)),
            None => seq![s],
        }
    }
}

/// Number of leading characters that are not whitespace.
pub open spec fn word_len(s: Seq<char>) -> nat
    decreases s.len(),
{
    if s.len() > 0 && !is_ws(s[0]) {
        1 + word_len(s.drop_first())
    } else {
        0
    }
}

/// `split_whitespace().next()`.
pub open spec fn first_word(l: Seq<char>) -> Option<Seq<char>> {
    let t = trim_start(l);
    if t.len() == 0 {
        None
    } else {
        Some(t.take(word_len(t) as int))
    }
}

pub open spec fn peel_marker() -> Seq<char> {
    seq!['^', '{', '}']
}

/// The first line holding `^{}`, the peeled commit of an annotated tag.
pub open spec fn first_peeled(lines: Seq<Seq<char>>) -> Option<Seq<char>>
    decreases lines.len(),
{
    if lines.len() == 0 {
        None
    } else if contains_sub(lines[0], peel_marker()) {
        Some(lines[0])
    } else {
        first_peeled(lines.drop_first())
    }
}

/// Why no commit could be read.
#[derive(Debug, Clone, Copy, PartialEq, Eq, Structural)]
pub enum RefLookupError {
    /// No line names the ref.
    NoRef,
    /// The chosen line holds no word.
    Malformed,
}

/// The commit named: the first word of the first peeled line, else of the
/// first line.
pub open spec fn ls_remote_spec(text: Seq<char>) -> Result<Seq<char>, RefLookupError> {
    let lines = lines_of(text);
    let line = match first_peeled(lines) {
        Some(l) => Some(l),
        None => if lines.len() > 0 {
            Some(lines[0])
        } else {
            None
        },
    };
    match line {
        None => Err(RefLookupError::NoRef),
        Some(l) => match first_word(l) {
            Some(w) => Ok(w),
            None => Err(RefLookupError::Malformed),
        },
    }
}

proof fn lemma_word_len(s: Seq<char>)
    ensures
        word_len(s) <= s.len(),
        forall|i: int| 0 <= i < word_len(s) ==> !is_ws(#[trigger] s[i]),
        word_len(s) < s.len() ==> is_ws(s[word_len(s) as int]),
    decreases s.len(),
{
    if s.len() > 0 && !is_ws(s[0]) {
        lemma_word_len(s.drop_first());
        assert forall|i: int| 0 <= i < word_len(s) implies !is_ws(#[trigger] s[i]) by {
            if i > 0 {
                assert(s[i] == s.drop_first()[i - 1]);
            }
        }
    }
}

proof fn lemma_word_len_unique(s: Seq<char>, k: int)
    requires
        0 <= k <= s.len(),
        forall|i: int| 0 <= i < k ==> !is_ws(#[trigger] s[i]),
        k < s.len() ==> is_ws(s[k]),
    ensures
        word_len(s) == k,
    decreases s.len(),
{
    if s.len() > 0 && !is_ws(s[0]) {
        assert forall|i: int| 0 <= i < k - 1 implies !is_ws(#[trigger] s.drop_first()[i]) by {
            assert(s.drop_first()[i] == s[i + 1]);
        }
        if k - 1 < s.drop_first().len() {
            assert(s.drop_first()[k - 1] == s[k]);
        }
        lemma_word_len_unique(s.drop_first(), k - 1);
    } else if k > 0 {
        assert(!is_ws(s[0]));
    }
}

fn first_word_exec(l: &Vec<char>) -> (res: Option<Vec<char>>)
    ensures
        match first_word(l@) {
            Some(w) => res matches Some(r) && r@ == w,
            None => res is None,
        },
{
    let t = trim_start_exec(l);
    if t.len() == 0 {
        return None;
    }
    let mut k: usize = 0;
    while k < t.len() && !is_ws_exec(t[k])
        invariant
            k <= t@.len(),
            forall|i: int| 0 <= i < k ==> !is_ws(#[trigger] t@[i]),
        decreases t@.len() - k,
    {
        k = k + 1;
    }
    proof {
        lemma_word_len_unique(t@, k as int);
    }
    Some(slice(&t, 0, k))
}

/// The lines of `text`, as `lines_of` reads them.
fn lines_exec(text: &Vec<char>) -> (res: Vec<Vec<char>>)
    ensures
        res@.map_values(|l: Vec<char>| l@) == lines_of(text@),
{
    let mut out: Vec<Vec<char>> = Vec::new();
    let mut i: usize = 0;
    assert(text@.skip(0) =~= text@);
    assert(out@.map_values(|l: Vec<char>| l@) + lines_of(text@) =~= lines_of(text@));
    while i < text.len()
        invariant
            i <= text@.len(),
            out@.map_values(|l: Vec<char>| l@) + lines_of(text@.skip(i as int)) == lines_of(text@),
        decreases text@.len() - i,
    {
        let ghost rest = text@.skip(i as int);
        proof {
            lemma_find_from(rest, '\n', 0);
            lemma_find_from(text@, '\n', i as int);
        }
        let ghost o0 = out@;
        match find_from_exec(text, '\n', i) {
            Some(j) => {
                let mut line = slice(text, i, j);
                if line.len() > 0 && line[line.len() - 1] == '\r' {
                    line.pop();
                }
                proof {
                    assert(find_from(rest, '\n', 0) == Some(j - i)) by {
                        lemma_find_from(rest, '\n', 0);
                        match find_from(rest, '\n', 0) {
                            Some(q) => {
                                if q < j - i {
                                    assert(rest[q] == text@[i + q]);
                                } else if q > j - i {
                                    assert(rest[j - i] == text@[j as int]);
                                }
                            },
                            None => {
                                assert(rest[j - i] == text@[j as int]);
                            },
                        }
                    }
                    assert(rest.take(j - i) =~= text@.subrange(i as int, j as int));
                    assert(rest.skip(j - i + 1) =~= text@.skip(j + 1));
                    assert(line@ == strip_cr(rest.take(j - i)));
                }
                out.push(line);
                proof {
                    assert(out@.map_values(|l: Vec<char>| l@) =~= o0.map_values(|l: Vec<char>| l@).push(strip_cr(rest.take(j - i))));
                    assert(lines_of(rest) == seq![strip_cr(rest.take(j - i))] + lines_of(text@.skip(j + 1)));
                    assert(out@.map_values(|l: Vec<char>| l@) + lines_of(text@.skip(j + 1)) =~= o0.map_values(|l: Vec<char>| l@) + lines_of(rest));
                }
                i = j + 1;
            },
            None => {
                let line = slice(text, i, text.len());
                proof {
                    assert(find_from(rest, '\n', 0) is None) by {
                        lemma_find_from(rest, '\n', 0);
                        match find_from(rest, '\n', 0) {
                            Some(q) => {
                                assert(rest[q] == text@[i + q]);
                            },
                            None => {},
                        }
                    }
                    assert(rest =~= text@.subrange(i as int, text@.len() as int));
                    assert(lines_of(rest) == seq![rest]);
                }
                out.push(line);
                proof {
                    assert(text@.skip(text@.len() as int) =~= Seq::<char>::empty());
                    assert(lines_of(Seq::<char>::empty()) =~= Seq::<Seq<char>>::empty());
                    assert(out@.map_values(|l: Vec<char>| l@) + lines_of(text@.skip(text@.len() as int)) =~= o0.map_values(|l: Vec<char>| l@) + lines_of(rest));
                }
                i = text.len();
            },
        }
    }
    proof {
        assert(text@.skip(text@.len() as int) =~= Seq::<char>::empty());
        assert(lines_of(Seq::<char>::empty()) =~= Seq::<Seq<char>>::empty());
        assert(out@.map_values(|l: Vec<char>| l@) + Seq::<Seq<char>>::empty() =~= out@.map_values(|l: Vec<char>| l@));
    }
    out
}

/// The commit that `git ls-remote` names for a ref: the first word of the
/// first line holding `^{}` (an annotated tag's peeled commit), else of the
/// first line.
pub fn ls_remote_sha(text: &str) -> (res: Result<String, RefLookupError>)
    ensures
        match ls_remote_spec(text@) {
            Ok(w) => res matches Ok(s) && s@ == w,
            Err(e) => res == Err::<String, RefLookupError>(e),
        },
{
    let lines = lines_exec(&chars_of(text));
    let ghost lv = lines@.map_values(|l: Vec<char>| l@);
    let marker = vec!['^', '{', '}'];
    assert(marker@ =~= peel_marker());
    let mut i: usize = 0;
    let mut found = false;
    assert(lv.skip(0) =~= lv);
    while i < lines.len() && !found
        invariant
            i <= lines@.len(),
            lv == lines@.map_values(|l: Vec<char>| l@),
            marker@ == peel_marker(),
            found ==> i < lines@.len() && first_peeled(lv) == Some(lv[i as int]),
            !found ==> first_peeled(lv) == first_peeled(lv.skip(i as int)),
        decreases lines@.len() - i, if found { 0int } else { 1int },
    {
        assert(lv.skip(i as int)[0] == lines@[i as int]@);
        assert(lv.skip(i as int).drop_first() =~= lv.skip(i + 1));
        if has_sub(&lines[i], &marker) {
            found = true;
        } else {
            i = i + 1;
        }
    }
    let line_index = if found {
        Some(i)
    } else {
        proof {
            assert(lv.skip(lines@.len() as int) =~= Seq::<Seq<char>>::empty());
        }
        if lines.len() > 0 {
            Some(0)
        } else {
            None
        }
    };
    match line_index {
        None => Err(RefLookupError::NoRef),
        Some(li) => match first_word_exec(&lines[li]) {
            Some(w) => Ok(string_of(&w)),
            None => Err(RefLookupError::Malformed),
        },
    }
}

} // verus!
