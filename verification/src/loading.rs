//! Loading chapter content: finding the document of a chapter in the spine and
//! running the per-chapter parse over a list of jobs.

use vstd::prelude::*;

use crate::book::{spine_document, EpubBook, SpineItem};
use crate::chapter::ContentBlock;
use crate::path::{paths_match, resource_path_matches};
use crate::text::{chars_of, push_all, string_from_chars};

verus! {

/// The normalised path of the first (X)HTML document of the spine whose path
/// matches `href`.
pub open spec fn document_for(spine: Seq<SpineItem>, href: Seq<char>) -> Option<Seq<char>>
    decreases spine.len(),
{
    if spine.len() == 0 {
        None
    } else {
        match spine_document(spine[0]) {
            Some(p) => if paths_match(p, href) {
                Some(p)
            } else {
                document_for(spine.drop_first(), href)
            },
            None => document_for(spine.drop_first(), href),
        }
    }
}

/// The error reported when no document of the spine matches a chapter path.
pub open spec fn missing_chapter_message(href: Seq<char>) -> Seq<char> {
    "未找到章节资源: "@ + href
}

proof fn lemma_document_for_skip(spine: Seq<SpineItem>, href: Seq<char>, i: int)
    requires
        0 <= i < spine.len(),
    ensures
        document_for(spine.skip(i), href) == match spine_document(spine[i]) {
            Some(p) => if paths_match(p, href) {
                Some(p)
            } else {
                document_for(spine.skip(i + 1), href)
            },
            None => document_for(spine.skip(i + 1), href),
        },
{
    assert(spine.skip(i).drop_first() =~= spine.skip(i + 1));
}

/// The normalised path of the first (X)HTML document of the spine whose path
/// matches `href`.
pub fn document_path_for(spine: &Vec<SpineItem>, href: &str) -> (r: Option<String>)
    ensures
        r matches Some(p) ==> document_for(spine@, href@) == Some(p@),
        r is None ==> document_for(spine@, href@) is None,
{
    let mut i: usize = 0;
    assert(spine@.skip(0) =~= spine@);
    while i < spine.len()
        invariant
            i <= spine.len(),
            document_for(spine@.skip(i as int), href@) == document_for(spine@, href@),
        decreases spine.len() - i,
    {
        proof {
            lemma_document_for_skip(spine@, href@, i as int);
        }
        match crate::book::spine_item_document(&spine[i]) {
            Some(p) => {
                if resource_path_matches(p.as_str(), href) {
                    return Some(p);
                }
            },
            None => {},
        }
        i += 1;
    }
    assert(spine@.skip(spine.len() as int) =~= Seq::<SpineItem>::empty());
    None
}

/// Parses the chapter whose document path is `href`: finds its document in the
/// spine and hands that document's path to `read`; when no document matches,
/// reports `未找到章节资源: <href>`.
pub fn parse_chapter_from_epub<R>(spine: &Vec<SpineItem>, href: &str, read: R) -> (r: Result<
    Vec<ContentBlock>,
    String,
>) where R: FnOnce(&String) -> Result<Vec<ContentBlock>, String>
    requires
        forall|p: &String| call_requires(read, (p,)),
    ensures
        match document_for(spine@, href@) {
            Some(p) => exists|path: String, out: Result<Vec<ContentBlock>, String>|
                #![trigger call_ensures(read, (&path,), out)]
                path@ == p && call_ensures(read, (&path,), out) && r == out,
            None => r matches Err(e) && e@ == missing_chapter_message(href@),
        },
{
    match document_path_for(spine, href) {
        Some(path) => {
            let out = read(&path);
            assert(call_ensures(read, (&path,), out));
            out
        },
        None => {
            let mut msg = chars_of("未找到章节资源: ");
            let h = chars_of(href);
            push_all(&mut msg, h.as_slice());
            Err(string_from_chars(msg.as_slice()))
        },
    }
}

/// The indices `i` with `kept[i]`, in order.
pub open spec fn kept_indices(kept: Seq<bool>) -> Seq<int>
    decreases kept.len(),
{
    if kept.len() == 0 {
        Seq::empty()
    } else {
        let prev = kept_indices(kept.drop_last());
        if kept.last() {
            prev.push(kept.len() - 1)
        } else {
            prev
        }
    }
}

/// A job that a run went past without stopping: `keep` refused its chapter, or
/// accepted it and `parse_one` parsed it.
pub open spec fn job_passes<K, P>(keep: K, parse_one: P, job: (usize, String)) -> bool where
    K: Fn(usize) -> bool,
    P: Fn(&String) -> Result<Vec<ContentBlock>, String>,
 {
    ||| call_ensures(keep, (job.0,), false)
    ||| call_ensures(keep, (job.0,), true) && job_parses(parse_one, job)
}

/// `parse_one` can parse the job's document.
pub open spec fn job_parses<P>(parse_one: P, job: (usize, String)) -> bool where
    P: Fn(&String) -> Result<Vec<ContentBlock>, String>,
 {
    exists|b: Vec<ContentBlock>| call_ensures(parse_one, (&job.1,), Ok::<Vec<ContentBlock>, String>(b))
}

/// What `parse_chapters_from_file_while` returns for `jobs`: for some choice of
/// the jobs that `keep` let through (`kept`), the parsed content of exactly
/// those jobs, in order; or the error that `parse_one` reported for a job whose
/// chapter `keep` accepted, every earlier job having passed.
pub open spec fn parsed_jobs<K, P>(
    jobs: Seq<(usize, String)>,
    keep: K,
    parse_one: P,
    r: Result<Vec<(usize, Vec<ContentBlock>)>, String>,
) -> bool where K: Fn(usize) -> bool, P: Fn(&String) -> Result<Vec<ContentBlock>, String> {
    match r {
        Ok(out) => exists|kept: Seq<bool>|
            #![trigger kept_indices(kept)]
            {
                &&& kept.len() == jobs.len()
                &&& out@.len() == kept_indices(kept).len()
                &&& forall|j: int|
                    0 <= j < jobs.len() ==> (#[trigger] kept[j] ==> call_ensures(
                        keep,
                        (jobs[j].0,),
                        true,
                    )) && (!kept[j] ==> call_ensures(keep, (jobs[j].0,), false))
                &&& forall|m: int|
                    0 <= m < out@.len() ==> {
                        let j = kept_indices(kept)[m];
                        &&& (#[trigger] out@[m]).0 == jobs[j].0
                        &&& call_ensures(parse_one, (&jobs[j].1,), Ok::<Vec<ContentBlock>, String>(out@[m].1))
                    }
            },
        Err(e) => exists|j: int|
            #![trigger jobs[j]]
            {
                &&& 0 <= j < jobs.len()
                &&& call_ensures(keep, (jobs[j].0,), true)
                &&& call_ensures(parse_one, (&jobs[j].1,), Err::<Vec<ContentBlock>, String>(e))
                &&& forall|i: int| 0 <= i < j ==> #[trigger] job_passes(keep, parse_one, jobs[i])
            },
    }
}

proof fn lemma_all_kept(kept: Seq<bool>)
    requires
        forall|j: int| 0 <= j < kept.len() ==> #[trigger] kept[j],
    ensures
        kept_indices(kept) == Seq::new(kept.len(), |i: int| i),
    decreases kept.len(),
{
    if kept.len() > 0 {
        lemma_all_kept(kept.drop_last());
        assert(kept.last());
        assert(kept_indices(kept) =~= Seq::new(kept.len(), |i: int| i));
    }
}

proof fn lemma_none_kept(kept: Seq<bool>)
    requires
        forall|j: int| 0 <= j < kept.len() ==> !#[trigger] kept[j],
    ensures
        kept_indices(kept).len() == 0,
    decreases kept.len(),
{
    if kept.len() > 0 {
        lemma_none_kept(kept.drop_last());
        assert(!kept.last());
    }
}

/// A run in which `keep` never accepts a chapter parses nothing and succeeds
/// with no chapters.
pub proof fn law_nothing_parsed_when_nothing_kept<K, P>(
    jobs: Seq<(usize, String)>,
    keep: K,
    parse_one: P,
    r: Result<Vec<(usize, Vec<ContentBlock>)>, String>,
) where K: Fn(usize) -> bool, P: Fn(&String) -> Result<Vec<ContentBlock>, String>
    requires
        parsed_jobs(jobs, keep, parse_one, r),
        forall|i: usize| !#[trigger] call_ensures(keep, (i,), true),
    ensures
        r matches Ok(out) && out@.len() == 0,
{
    match r {
        Ok(out) => {
            let kept = choose|kept: Seq<bool>|
                #![trigger kept_indices(kept)]
                {
                    &&& kept.len() == jobs.len()
                    &&& out@.len() == kept_indices(kept).len()
                    &&& forall|j: int|
                        0 <= j < jobs.len() ==> (#[trigger] kept[j] ==> call_ensures(
                            keep,
                            (jobs[j].0,),
                            true,
                        )) && (!kept[j] ==> call_ensures(keep, (jobs[j].0,), false))
                    &&& forall|m: int|
                        0 <= m < out@.len() ==> {
                            let j = kept_indices(kept)[m];
                            &&& (#[trigger] out@[m]).0 == jobs[j].0
                            &&& call_ensures(parse_one, (&jobs[j].1,), Ok::<Vec<ContentBlock>, String>(out@[m].1))
                        }
                };
            assert forall|j: int| 0 <= j < kept.len() implies !#[trigger] kept[j] by {
                if kept[j] {
                    assert(call_ensures(keep, (jobs[j].0,), true));
                }
            }
            lemma_none_kept(kept);
        },
        Err(e) => {
            let j = choose|j: int|
                #![trigger jobs[j]]
                {
                    &&& 0 <= j < jobs.len()
                    &&& call_ensures(keep, (jobs[j].0,), true)
                    &&& call_ensures(parse_one, (&jobs[j].1,), Err::<Vec<ContentBlock>, String>(e))
                    &&& forall|i: int| 0 <= i < j ==> #[trigger] job_passes(keep, parse_one, jobs[i])
                };
            assert(call_ensures(keep, (jobs[j].0,), true));
        },
    }
}

impl EpubBook {
    /// Parses each job whose chapter `keep` still wants, checking `keep` before and
    /// after the parse; the first parse error ends the run and is returned.
    pub fn parse_chapters_from_file_while<K, P>(jobs: &Vec<(usize, String)>, keep: K, parse_one: P) -> (r: Result<
        Vec<(usize, Vec<ContentBlock>)>,
        String,
    >) where K: Fn(usize) -> bool, P: Fn(&String) -> Result<Vec<ContentBlock>, String>
        requires
            forall|i: usize| call_requires(keep, (i,)),
            forall|p: &String| call_requires(parse_one, (p,)),
        ensures
            parsed_jobs(jobs@, keep, parse_one, r),
    {
        let mut out: Vec<(usize, Vec<ContentBlock>)> = Vec::new();
        let ghost mut kept: Seq<bool> = Seq::empty();
        let mut i: usize = 0;
        while i < jobs.len()
            invariant
                i <= jobs.len(),
                forall|x: usize| call_requires(keep, (x,)),
                forall|p: &String| call_requires(parse_one, (p,)),
                kept.len() == i,
                out@.len() == kept_indices(kept).len(),
                forall|j: int|
                    0 <= j < i ==> (#[trigger] kept[j] ==> call_ensures(keep, (jobs@[j].0,), true)) && (
                    !kept[j] ==> call_ensures(keep, (jobs@[j].0,), false)),
                forall|j: int| 0 <= j < i ==> #[trigger] job_passes(keep, parse_one, jobs@[j]),
                forall|m: int|
                    0 <= m < out@.len() ==> {
                        let j = kept_indices(kept)[m];
                        &&& (#[trigger] out@[m]).0 == jobs@[j].0
                        &&& call_ensures(parse_one, (&jobs@[j].1,), Ok::<Vec<ContentBlock>, String>(out@[m].1))
                    },
            decreases jobs.len() - i,
        {
            let idx = jobs[i].0;
            let ghost prev_kept = kept;
            if !keep(idx) {
                proof {
                    kept = kept.push(false);
                    assert(kept.drop_last() =~= prev_kept);
                    assert(job_passes(keep, parse_one, jobs@[i as int]));
                }
            } else {
                let parsed = parse_one(&jobs[i].1);
                match parsed {
                    Err(e) => {
                        assert(call_ensures(parse_one, (&jobs@[i as int].1,), Err::<Vec<ContentBlock>, String>(e)));
                        assert(jobs@[i as int].0 == idx);
                        return Err(e);
                    },
                    Ok(blocks) => {
                        assert(call_ensures(parse_one, (&jobs@[i as int].1,), Ok::<Vec<ContentBlock>, String>(blocks)));
                        assert(job_parses(parse_one, jobs@[i as int]));
                        assert(job_passes(keep, parse_one, jobs@[i as int]));
                        if !keep(idx) {
                            proof {
                                kept = kept.push(false);
                                assert(kept.drop_last() =~= prev_kept);
                            }
                        } else {
                            out.push((idx, blocks));
                            proof {
                                kept = kept.push(true);
                                assert(kept.drop_last() =~= prev_kept);
                                assert(kept_indices(kept) == kept_indices(prev_kept).push(i as int));
                            }
                        }
                    },
                }
            }
            proof {
                assert(forall|m: int| 0 <= m < kept_indices(prev_kept).len() ==> kept_indices(kept)[m] == kept_indices(prev_kept)[m]);
            }
            i += 1;
        }
        Ok(out)
    }

    /// Parses every job, in order; the first parse error ends the run and is
    /// returned.
    pub fn parse_chapters_from_file<P>(jobs: &Vec<(usize, String)>, parse_one: P) -> (r: Result<
        Vec<(usize, Vec<ContentBlock>)>,
        String,
    >) where P: Fn(&String) -> Result<Vec<ContentBlock>, String>
        requires
            forall|p: &String| call_requires(parse_one, (p,)),
        ensures
            r matches Ok(out) ==> {
                &&& out@.len() == jobs@.len()
                &&& forall|m: int|
                    0 <= m < out@.len() ==> {
                        &&& (#[trigger] out@[m]).0 == jobs@[m].0
                        &&& call_ensures(parse_one, (&jobs@[m].1,), Ok::<Vec<ContentBlock>, String>(out@[m].1))
                    }
            },
            r matches Err(e) ==> exists|j: int|
                #![trigger jobs@[j]]
                {
                    &&& 0 <= j < jobs@.len()
                    &&& call_ensures(parse_one, (&jobs@[j].1,), Err::<Vec<ContentBlock>, String>(e))
                    &&& forall|i: int| 0 <= i < j ==> #[trigger] job_parses(parse_one, jobs@[i])
                },
    {
        let keep_all = |_idx: usize| -> (b: bool)
            ensures
                b,
            { true };
        let r = Self::parse_chapters_from_file_while(jobs, keep_all, parse_one);
        proof {
            if r is Ok {
                let out = r->Ok_0;
                let kept = choose|kept: Seq<bool>|
                    #![trigger kept_indices(kept)]
                    {
                        &&& kept.len() == jobs@.len()
                        &&& out@.len() == kept_indices(kept).len()
                        &&& forall|j: int|
                            0 <= j < jobs@.len() ==> (#[trigger] kept[j] ==> call_ensures(
                                keep_all,
                                (jobs@[j].0,),
                                true,
                            )) && (!kept[j] ==> call_ensures(keep_all, (jobs@[j].0,), false))
                        &&& forall|m: int|
                            0 <= m < out@.len() ==> {
                                let j = kept_indices(kept)[m];
                                &&& (#[trigger] out@[m]).0 == jobs@[j].0
                                &&& call_ensures(parse_one, (&jobs@[j].1,), Ok::<Vec<ContentBlock>, String>(out@[m].1))
                            }
                    };
                assert forall|j: int| 0 <= j < kept.len() implies #[trigger] kept[j] by {
                    if !kept[j] {
                        assert(call_ensures(keep_all, (jobs@[j].0,), false));
                    }
                }
                lemma_all_kept(kept);
            } else {
                let j = choose|j: int|
                    #![trigger jobs@[j]]
                    {
                        &&& 0 <= j < jobs@.len()
                        &&& call_ensures(keep_all, (jobs@[j].0,), true)
                        &&& call_ensures(parse_one, (&jobs@[j].1,), Err::<Vec<ContentBlock>, String>(r->Err_0))
                        &&& forall|i: int| 0 <= i < j ==> #[trigger] job_passes(keep_all, parse_one, jobs@[i])
                    };
                assert forall|i: int| 0 <= i < j implies #[trigger] job_parses(parse_one, jobs@[i]) by {
                    assert(job_passes(keep_all, parse_one, jobs@[i]));
                }
                assert(0 <= j < jobs@.len());
                assert(call_ensures(parse_one, (&jobs@[j].1,), Err::<Vec<ContentBlock>, String>(r->Err_0)));
            }
        }
        r
    }
}

} // verus!
