//! Pairing of "review" chapters with the chapters they comment on.
//!
//! A chapter whose title ends with ` - 段评` holds the paragraph reviews of the
//! chapter whose title is the same text without that suffix. When several
//! chapters share a title, the n-th review chapter of that title belongs to the
//! n-th chapter of the base title.

use std::collections::{HashMap, HashSet};

use vstd::prelude::*;

use crate::chapter::{chapter_titles, Chapter};
use vstd::std_specs::hash::spec_hash_keys_iter;
use vstd::std_specs::iter::IteratorSpec;
use crate::text::{chars_eq, chars_of, ends_with_chars, has_suffix};

verus! {

broadcast use vstd::std_specs::hash::group_hash_axioms;

/// The title suffix that marks a review chapter.
pub open spec fn review_suffix() -> Seq<char> {
    " - 段评"@
}

/// Whether a title marks a review chapter.
pub open spec fn is_review_title(t: Seq<char>) -> bool {
    has_suffix(t, review_suffix())
}

/// The title of the chapter a review chapter belongs to.
pub open spec fn review_base(t: Seq<char>) -> Seq<char> {
    t.take(t.len() - review_suffix().len())
}

/// How many of `ts` equal `x`.
pub open spec fn count_title(ts: Seq<Seq<char>>, x: Seq<char>) -> nat
    decreases ts.len(),
{
    if ts.len() == 0 {
        0
    } else {
        count_title(ts.drop_last(), x) + if ts.last() == x {
            1nat
        } else {
            0nat
        }
    }
}

/// Chapter `main` is the one that review chapter `review` belongs to: `review`
/// is a review chapter, `main` carries its base title, and `main` is as many
/// chapters into the chapters of that title as `review` is into the chapters
/// of its own title.
pub open spec fn review_of(ts: Seq<Seq<char>>, main: int, review: int) -> bool {
    &&& 0 <= review < ts.len()
    &&& 0 <= main < ts.len()
    &&& is_review_title(ts[review])
    &&& ts[main] == review_base(ts[review])
    &&& count_title(ts.take(main), ts[main]) == count_title(ts.take(review), ts[review])
}

/// `m` pairs exactly the chapters and review chapters related by `review_of`,
/// among review chapters before `bound`.
pub open spec fn pairs_reviews(m: Map<usize, usize>, ts: Seq<Seq<char>>, bound: int) -> bool {
    &&& forall|k: usize| #[trigger] m.contains_key(k) ==> review_of(ts, k as int, m[k] as int) && m[k] < bound
    &&& forall|k: usize, v: usize| #[trigger] review_of(ts, k as int, v as int) && v < bound ==> m.contains_key(k) && m[k] == v
}

proof fn lemma_count_step(ts: Seq<Seq<char>>, x: Seq<char>, j: int)
    requires
        0 <= j < ts.len(),
    ensures
        count_title(ts.take(j + 1), x) == count_title(ts.take(j), x) + if ts[j] == x {
            1nat
        } else {
            0nat
        },
{
    assert(ts.take(j + 1).drop_last() =~= ts.take(j));
}

proof fn lemma_count_monotone(ts: Seq<Seq<char>>, x: Seq<char>, a: int, b: int)
    requires
        0 <= a <= b <= ts.len(),
    ensures
        count_title(ts.take(a), x) <= count_title(ts.take(b), x),
    decreases b - a,
{
    if a < b {
        lemma_count_monotone(ts, x, a, b - 1);
        lemma_count_step(ts, x, b - 1);
    }
}

proof fn lemma_count_strict(ts: Seq<Seq<char>>, x: Seq<char>, a: int, b: int)
    requires
        0 <= a < b <= ts.len(),
        ts[a] == x,
    ensures
        count_title(ts.take(a), x) < count_title(ts.take(b), x),
{
    lemma_count_step(ts, x, a);
    lemma_count_monotone(ts, x, a + 1, b);
}

proof fn lemma_review_title_shape(t: Seq<char>)
    requires
        is_review_title(t),
    ensures
        t == review_base(t) + review_suffix(),
{
    assert(t =~= t.take(t.len() - review_suffix().len()) + t.skip(t.len() - review_suffix().len()));
}

/// Each chapter has at most one review chapter.
pub proof fn law_review_unique_per_chapter(ts: Seq<Seq<char>>, main: int, r1: int, r2: int)
    requires
        review_of(ts, main, r1),
        review_of(ts, main, r2),
    ensures
        r1 == r2,
{
    lemma_review_title_shape(ts[r1]);
    lemma_review_title_shape(ts[r2]);
    assert(ts[r1] == ts[r2]);
    if r1 < r2 {
        lemma_count_strict(ts, ts[r1], r1, r2);
    } else if r2 < r1 {
        lemma_count_strict(ts, ts[r2], r2, r1);
    }
}

/// Each review chapter belongs to at most one chapter.
pub proof fn law_review_unique_target(ts: Seq<Seq<char>>, m1: int, m2: int, r: int)
    requires
        review_of(ts, m1, r),
        review_of(ts, m2, r),
    ensures
        m1 == m2,
{
    if m1 < m2 {
        lemma_count_strict(ts, ts[m1], m1, m2);
    } else if m2 < m1 {
        lemma_count_strict(ts, ts[m2], m2, m1);
    }
}

/// A review chapter never belongs to itself.
pub proof fn law_review_not_self(ts: Seq<Seq<char>>, main: int, r: int)
    requires
        review_of(ts, main, r),
    ensures
        main != r,
{
    lemma_review_title_shape(ts[r]);
    assert(ts[r].len() == ts[main].len() + review_suffix().len());
    assert(review_suffix().len() > 0) by {
        reveal_strlit(" - 段评");
    }
}

/// The titles of the chapters, as characters.
fn title_chars(chapters: &[Chapter]) -> (v: Vec<Vec<char>>)
    ensures
        v@.len() == chapters@.len(),
        forall|i: int| 0 <= i < v@.len() ==> #[trigger] v@[i]@ == chapters@[i].title@,
{
    let mut v: Vec<Vec<char>> = Vec::new();
    let mut i: usize = 0;
    while i < chapters.len()
        invariant
            i <= chapters.len(),
            v@.len() == i,
            forall|j: int| 0 <= j < i ==> #[trigger] v@[j]@ == chapters@[j].title@,
        decreases chapters.len() - i,
    {
        v.push(chars_of(chapters[i].title.as_str()));
        i += 1;
    }
    v
}

/// Maps each chapter that has a review chapter to the index of that review
/// chapter, and collects the indices of all review chapters.
pub fn review_chapter_maps(chapters: &[Chapter]) -> (r: (HashMap<usize, usize>, HashSet<usize>))
    ensures
        r.1@ == Set::new(
            |i: usize| i < chapters@.len() && is_review_title(chapter_titles(chapters@)[i as int]),
        ),
        pairs_reviews(r.0@, chapter_titles(chapters@), chapters@.len() as int),
{
    let ghost ts = chapter_titles(chapters@);
    let tcs = title_chars(chapters);
    let suffix = chars_of(" - 段评");
    let n = chapters.len();
    let mut reviews: HashMap<usize, usize> = HashMap::new();
    let mut review_indices: HashSet<usize> = HashSet::new();
    assert(forall|i: int| 0 <= i < n ==> tcs@[i]@ == ts[i]);
    let mut idx: usize = 0;
    while idx < n
        invariant
            n == chapters@.len(),
            n == tcs@.len(),
            ts == chapter_titles(chapters@),
            ts.len() == n,
            suffix@ == review_suffix(),
            forall|i: int| 0 <= i < n ==> #[trigger] tcs@[i]@ == ts[i],
            idx <= n,
            review_indices@ == Set::new(|i: usize| i < idx && is_review_title(ts[i as int])),
            pairs_reviews(reviews@, ts, idx as int),
        decreases n - idx,
    {
        let ghost old_set = review_indices@;
        let ghost old_map = reviews@;
        let cur = &tcs[idx];
        assert(cur@ == ts[idx as int]);
        if ends_with_chars(cur.as_slice(), suffix.as_slice()) {
            review_indices.insert(idx);
            let base_len = cur.len() - suffix.len();
            let mut base: Vec<char> = Vec::new();
            let mut b: usize = 0;
            while b < base_len
                invariant
                    base_len <= cur@.len(),
                    b <= base_len,
                    base@ == cur@.take(b as int),
                decreases base_len - b,
            {
                base.push(cur[b]);
                b += 1;
                assert(base@ =~= cur@.take(b as int));
            }
            assert(base@ == review_base(ts[idx as int]));
            let mut count: usize = 0;
            let mut j: usize = 0;
            while j < idx
                invariant
                    idx < n,
                    n == tcs@.len(),
                    ts.len() == n,
                    forall|i: int| 0 <= i < n ==> #[trigger] tcs@[i]@ == ts[i],
                    cur@ == ts[idx as int],
                    j <= idx,
                    count <= j,
                    count == count_title(ts.take(j as int), ts[idx as int]),
                decreases idx - j,
            {
                proof {
                    lemma_count_step(ts, ts[idx as int], j as int);
                }
                if chars_eq(tcs[j].as_slice(), cur.as_slice()) {
                    count += 1;
                }
                j += 1;
            }
            let mut seen: usize = 0;
            let mut k: usize = 0;
            let mut found: Option<usize> = None;
            while k < n
                invariant_except_break
                    seen <= k,
                    seen == count_title(ts.take(k as int), base@),
                    found is None,
                    forall|m: int|
                        0 <= m < k && #[trigger] ts[m] == base@ ==> count_title(ts.take(m), base@)
                            != count,
                invariant
                    n == tcs@.len(),
                    ts.len() == n,
                    forall|i: int| 0 <= i < n ==> #[trigger] tcs@[i]@ == ts[i],
                    k <= n,
                ensures
                    found matches Some(m) ==> m < n && ts[m as int] == base@ && count_title(
                        ts.take(m as int),
                        base@,
                    ) == count,
                    found is None ==> forall|m: int|
                        0 <= m < n && #[trigger] ts[m] == base@ ==> count_title(ts.take(m), base@)
                            != count,
                decreases n - k,
            {
                proof {
                    lemma_count_step(ts, base@, k as int);
                }
                if chars_eq(tcs[k].as_slice(), base.as_slice()) {
                    if seen == count {
                        found = Some(k);
                        break;
                    }
                    seen += 1;
                }
                k += 1;
            }
            match found {
                Some(main) => {
                    assert(review_of(ts, main as int, idx as int));
                    reviews.insert(main, idx);
                    assert forall|kk: usize| #[trigger] reviews@.contains_key(kk) implies review_of(
                        ts,
                        kk as int,
                        reviews@[kk] as int,
                    ) && reviews@[kk] < idx + 1 by {
                        if kk != main {
                            assert(old_map.contains_key(kk));
                        }
                    }
                    assert forall|kk: usize, v: usize| #[trigger] review_of(ts, kk as int, v as int)
                        && v < idx + 1 implies reviews@.contains_key(kk) && reviews@[kk] == v by {
                        if v == idx {
                            law_review_unique_target(ts, kk as int, main as int, idx as int);
                        } else {
                            assert(old_map.contains_key(kk) && old_map[kk] == v);
                            if kk == main {
                                law_review_unique_per_chapter(ts, main as int, v as int, idx as int);
                            }
                        }
                    }
                },
                None => {
                    assert forall|kk: usize, v: usize| #[trigger] review_of(ts, kk as int, v as int)
                        && v < idx + 1 implies reviews@.contains_key(kk) && reviews@[kk] == v by {
                        if v == idx {
                            assert(ts[kk as int] == base@);
                            assert(count_title(ts.take(kk as int), base@) != count);
                        }
                    }
                },
            }
            assert(review_indices@ =~= Set::new(
                |i: usize| i < idx + 1 && is_review_title(ts[i as int]),
            ));
        } else {
            assert(review_indices@ =~= Set::new(
                |i: usize| i < idx + 1 && is_review_title(ts[i as int]),
            ));
            assert forall|kk: usize, v: usize| #[trigger] review_of(ts, kk as int, v as int)
                && v < idx + 1 implies reviews@.contains_key(kk) && reviews@[kk] == v by {
                if v == idx {
                    assert(!is_review_title(ts[idx as int]));
                }
            }
        }
        idx += 1;
    }
    (reviews, review_indices)
}

/// A copy of a set of chapter indices.
pub(crate) fn copy_index_set(s: &HashSet<usize>) -> (r: HashSet<usize>)
    ensures
        r@ == s@,
{
    let mut r: HashSet<usize> = HashSet::new();
    let ghost keys = spec_hash_keys_iter(s).remaining().unref();
    for k in it: s.iter()
        invariant
            it.seq().unref() == keys,
            forall|x: usize| r@.contains(x) <==> exists|j: int| 0 <= j < it.index() && keys[j] == x,
    {
        let ghost before = r@;
        r.insert(*k);
        assert(keys[it.index() as int] == *k);
        assert forall|x: usize| r@.contains(x) <==> exists|j: int| 0 <= j < it.index() + 1 && keys[j] == x by {
            if r@.contains(x) && !before.contains(x) {
                assert(keys[it.index() as int] == x);
            }
        }
    }
    assert forall|x: usize| r@.contains(x) <==> s@.contains(x) by {
        if s@.contains(x) {
            assert(keys.to_set().contains(x));
            assert(exists|j: int| 0 <= j < keys.len() && keys[j] == x);
        }
    }
    assert(r@ =~= s@);
    r
}

} // verus!
