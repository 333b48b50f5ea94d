//! The enrichment orchestrator's pure core: resolving a list-document URL to
//! the hosting `(owner, repo)` pair, and merging extraction output, per-target
//! metadata and the addition-date index into the final record sequence. A
//! failed metadata fetch surfaces as an absent slot and never disturbs its
//! siblings; a missing date index entry leaves the addition date absent.

use vstd::prelude::*;
use vstd::string::*;

use crate::index::StringIndex;
use crate::infer::slug_of;
use crate::models::{LinkRef, RepoReference, Repository, RepositoryView};
use crate::text::char_vec;

verus! {

/// Trailing `'/'` characters removed, as the URL parser does first.
pub open spec fn trim_end_slashes(s: Seq<char>) -> Seq<char>
    decreases s.len(),
{
    if s.len() > 0 && s.last() == '/' {
        trim_end_slashes(s.drop_last())
    } else {
        s
    }
}

/// The index of the last `'/'` in `s`, or `-1` when there is none.
pub open spec fn last_slash(s: Seq<char>) -> int
    decreases s.len(),
{
    if s.len() == 0 {
        -1
    } else if s.last() == '/' {
        s.len() - 1
    } else {
        last_slash(s.drop_last())
    }
}

/// What parsing a list URL yields: after trimming trailing slashes, the last
/// two `'/'`-separated segments as `(owner, repo)`; a URL without `'/'`
/// cannot be resolved.
pub open spec fn parse_model(url: Seq<char>) -> Option<(Seq<char>, Seq<char>)> {
    let t = trim_end_slashes(url);
    let j = last_slash(t);
    if j < 0 {
        None
    } else {
        let i = last_slash(t.take(j));
        Some((t.subrange(i + 1, j), t.subrange(j + 1, t.len() as int)))
    }
}

pub proof fn lemma_trim_end_slashes_at(s: Seq<char>, k: int)
    requires
        0 <= k <= s.len(),
        forall|t: int| k <= t < s.len() ==> s[t] == '/',
        k == 0 || s[k - 1] != '/',
    ensures
        trim_end_slashes(s) == s.subrange(0, k),
    decreases s.len(),
{
    if s.len() > 0 && s.last() == '/' {
        assert(k < s.len());
        lemma_trim_end_slashes_at(s.drop_last(), k);
        assert(s.drop_last().subrange(0, k) =~= s.subrange(0, k));
    } else {
        assert(k == s.len());
        assert(s.subrange(0, s.len() as int) =~= s);
    }
}

proof fn lemma_last_slash_at(s: Seq<char>, k: int)
    requires
        0 <= k < s.len(),
        s[k] == '/',
        forall|t: int| k < t < s.len() ==> s[t] != '/',
    ensures
        last_slash(s) == k,
    decreases s.len(),
{
    if s.last() != '/' {
        assert(k < s.len() - 1);
        assert forall|t: int| k < t < s.drop_last().len() implies s.drop_last()[t] != '/' by {
            assert(s.drop_last()[t] == s[t]);
        }
        lemma_last_slash_at(s.drop_last(), k);
    }
}

proof fn lemma_last_slash_none(s: Seq<char>)
    requires
        forall|t: int| 0 <= t < s.len() ==> s[t] != '/',
    ensures
        last_slash(s) == -1,
    decreases s.len(),
{
    if s.len() > 0 {
        lemma_last_slash_none(s.drop_last());
    }
}

/// Resolves a list-document URL to the `(owner, repo)` pair hosting the
/// list. A URL that cannot be resolved is rejected immediately, exactly when
/// `parse_model` yields nothing.
pub fn parse_list_url(url: &str) -> (r: Result<(String, String), String>)
    ensures
        (match r {
            Ok(p) => parse_model(url@) == Some((p.0@, p.1@)),
            Err(e) => parse_model(url@) is None && e@ == "Invalid GitHub URL"@,
        }),
{
    let chars = char_vec(url);
    let n = chars.len();
    let mut end: usize = n;
    while end > 0 && chars[end - 1] == '/'
        invariant
            end <= n,
            n == chars@.len(),
            chars@ == url@,
            forall|t: int| end <= t < n ==> chars@[t] == '/',
        decreases end,
    {
        end = end - 1;
    }
    let ghost t = trim_end_slashes(url@);
    proof {
        lemma_trim_end_slashes_at(url@, end as int);
        assert(t == url@.subrange(0, end as int));
    }
    let mut j: usize = end;
    while j > 0 && chars[j - 1] != '/'
        invariant
            j <= end <= n,
            n == chars@.len(),
            chars@ == url@,
            forall|k: int| j <= k < end ==> chars@[k] != '/',
        decreases j,
    {
        j = j - 1;
    }
    if j == 0 {
        proof {
            assert forall|k: int| 0 <= k < t.len() implies t[k] != '/' by {
                assert(t[k] == chars@[k]);
            }
            lemma_last_slash_none(t);
        }
        return Err("Invalid GitHub URL".to_owned());
    }
    proof {
        assert(t[j - 1] == chars@[j - 1]);
        assert forall|k: int| j - 1 < k < t.len() implies t[k] != '/' by {
            assert(t[k] == chars@[k]);
        }
        lemma_last_slash_at(t, j - 1);
    }
    let repo = url.substring_char(j, end).to_owned();
    let mut i: usize = j - 1;
    while i > 0 && chars[i - 1] != '/'
        invariant
            i <= j - 1,
            j <= end <= n,
            n == chars@.len(),
            chars@ == url@,
            forall|k: int| i <= k < j - 1 ==> chars@[k] != '/',
        decreases i,
    {
        i = i - 1;
    }
    proof {
        let pre = t.take(j - 1);
        assert forall|k: int| i as int - 1 < k < pre.len() implies pre[k] != '/' by {
            assert(pre[k] == chars@[k]);
        }
        if i == 0 {
            lemma_last_slash_none(pre);
        } else {
            assert(pre[i - 1] == chars@[i - 1]);
            lemma_last_slash_at(pre, i - 1);
        }
        assert(t.subrange(i as int, j - 1) =~= url@.subrange(i as int, j - 1));
        assert(t.subrange(j as int, t.len() as int) =~= url@.subrange(j as int, end as int));
    }
    let owner = url.substring_char(i, j - 1).to_owned();
    Ok((owner, repo))
}

/// The view of a metadata slot sequence.
pub open spec fn meta_view(s: Seq<Option<Repository>>) -> Seq<Option<RepositoryView>> {
    s.map_values(
        |o: Option<Repository>|
            match o {
                Some(r) => Some(r@),
                None => None,
            },
    )
}

/// The addition date the index assigns a target, absent when unmatched.
pub open spec fn date_for(
    dates: Map<Seq<char>, Seq<char>>,
    owner: Seq<char>,
    name: Seq<char>,
) -> Option<Seq<char>> {
    if dates.contains_key(slug_of(owner, name)) {
        Some(dates[slug_of(owner, name)])
    } else {
        None
    }
}

/// A metadata record with the pipeline-derived addition date attached.
pub open spec fn with_date(m: RepositoryView, d: Option<Seq<char>>) -> RepositoryView {
    RepositoryView {
        id: m.id,
        name: m.name,
        full_name: m.full_name,
        description: m.description,
        html_url: m.html_url,
        homepage: m.homepage,
        stargazers_count: m.stargazers_count,
        forks_count: m.forks_count,
        open_issues_count: m.open_issues_count,
        language: m.language,
        license: m.license,
        topics: m.topics,
        updated_at: m.updated_at,
        created_at: m.created_at,
        added_to_list_at: d,
    }
}

/// The final record sequence: one record per successfully fetched target, in
/// extraction order, each carrying its inferred addition date; a failed slot
/// is skipped without touching its siblings.
pub open spec fn enrich_model(
    refs: Seq<LinkRef>,
    meta: Seq<Option<RepositoryView>>,
    dates: Map<Seq<char>, Seq<char>>,
) -> Seq<RepositoryView>
    decreases refs.len(),
{
    if refs.len() == 0 || meta.len() == 0 {
        seq![]
    } else {
        let rest = enrich_model(refs.drop_first(), meta.drop_first(), dates);
        match meta[0] {
            Some(m) => seq![with_date(m, date_for(dates, refs[0].owner, refs[0].name))] + rest,
            None => rest,
        }
    }
}

/// The view of a repository vector.
pub open spec fn repos_view(s: Seq<Repository>) -> Seq<RepositoryView> {
    s.map_values(|r: Repository| r@)
}

fn clone_opt_string(o: &Option<String>) -> (r: Option<String>)
    ensures
        crate::models::opt_str_view(r) == crate::models::opt_str_view(*o),
{
    match o {
        Some(s) => Some(s.clone()),
        None => None,
    }
}

fn clone_string_vec(v: &Vec<String>) -> (r: Vec<String>)
    ensures
        r@.map_values(|t: String| t@) == v@.map_values(|t: String| t@),
{
    let mut r: Vec<String> = Vec::new();
    let mut i: usize = 0;
    while i < v.len()
        invariant
            i <= v@.len(),
            r@.map_values(|t: String| t@) =~= v@.map_values(|t: String| t@).take(i as int),
        decreases v@.len() - i,
    {
        let ghost prev = r@;
        r.push(v[i].clone());
        proof {
            assert(r@.map_values(|t: String| t@) =~= prev.map_values(|t: String| t@).push(
                v@[i as int]@,
            ));
            assert(v@.map_values(|t: String| t@).take(i as int + 1) =~= v@.map_values(
                |t: String| t@,
            ).take(i as int).push(v@.map_values(|t: String| t@)[i as int]));
        }
        i = i + 1;
    }
    proof {
        assert(v@.map_values(|t: String| t@).take(v@.len() as int) =~= v@.map_values(
            |t: String| t@,
        ));
    }
    r
}

/// Copies a metadata record, attaching the given addition date.
fn repo_with_date(m: &Repository, d: Option<String>) -> (r: Repository)
    ensures
        r@ == with_date(m@, crate::models::opt_str_view(d)),
{
    let r = Repository {
        id: m.id,
        name: m.name.clone(),
        full_name: m.full_name.clone(),
        description: clone_opt_string(&m.description),
        html_url: m.html_url.clone(),
        homepage: clone_opt_string(&m.homepage),
        stargazers_count: m.stargazers_count,
        forks_count: m.forks_count,
        open_issues_count: m.open_issues_count,
        language: clone_opt_string(&m.language),
        license: match &m.license {
            Some(l) => Some(
                crate::models::License {
                    key: l.key.clone(),
                    name: l.name.clone(),
                    spdx_id: clone_opt_string(&l.spdx_id),
                    url: clone_opt_string(&l.url),
                },
            ),
            None => None,
        },
        topics: clone_string_vec(&m.topics),
        updated_at: m.updated_at.clone(),
        created_at: m.created_at.clone(),
        added_to_list_at: d,
    };
    proof {
        assert(r@ =~= with_date(m@, crate::models::opt_str_view(r.added_to_list_at)));
    }
    r
}

/// Merges extraction output, per-target metadata and the addition-date index
/// into the final enriched record sequence, preserving extraction order. One
/// failed metadata slot costs exactly that record and nothing else.
pub fn enrich(
    refs: &Vec<RepoReference>,
    metadata: &Vec<Option<Repository>>,
    dates: &StringIndex,
) -> (r: Vec<Repository>)
    requires
        metadata@.len() == refs@.len(),
    ensures
        repos_view(r@) == enrich_model(
            crate::extract::refs_view(refs@),
            meta_view(metadata@),
            dates@,
        ),
{
    let ghost rv = crate::extract::refs_view(refs@);
    let ghost mv = meta_view(metadata@);
    let mut out: Vec<Repository> = Vec::new();
    let mut i: usize = 0;
    proof {
        assert(rv.skip(0) =~= rv);
        assert(mv.skip(0) =~= mv);
        assert(repos_view(out@) + enrich_model(rv, mv, dates@) =~= enrich_model(rv, mv, dates@));
    }
    while i < refs.len()
        invariant
            i <= refs@.len(),
            metadata@.len() == refs@.len(),
            rv == crate::extract::refs_view(refs@),
            mv == meta_view(metadata@),
            rv.len() == refs@.len(),
            mv.len() == refs@.len(),
            repos_view(out@) + enrich_model(rv.skip(i as int), mv.skip(i as int), dates@)
                == enrich_model(rv, mv, dates@),
        decreases refs@.len() - i,
    {
        proof {
            assert(rv.skip(i as int)[0] == refs@[i as int]@);
            assert(mv.skip(i as int)[0] == mv[i as int]);
            assert(rv.skip(i as int).drop_first() =~= rv.skip(i as int + 1));
            assert(mv.skip(i as int).drop_first() =~= mv.skip(i as int + 1));
        }
        match &metadata[i] {
            Some(m) => {
                let rf = &refs[i];
                let mut slug = rf.owner.clone();
                slug.append("/");
                slug.append(rf.name.as_str());
                proof {
                    reveal_strlit("/");
                    assert("/"@ =~= seq!['/']);
                    assert(slug@ == slug_of(rf.owner@, rf.name@));
                }
                let d = dates.get_cloned(slug.as_str());
                proof {
                    assert(crate::models::opt_str_view(d) == date_for(
                        dates@,
                        refs@[i as int]@.owner,
                        refs@[i as int]@.name,
                    ));
                }
                let ghost prev = out@;
                out.push(repo_with_date(m, d));
                proof {
                    let x = with_date(
                        mv[i as int]->0,
                        date_for(dates@, refs@[i as int]@.owner, refs@[i as int]@.name),
                    );
                    assert(repos_view(out@) =~= repos_view(prev).push(x));
                    assert(repos_view(prev).push(x) =~= repos_view(prev) + seq![x]);
                    assert((repos_view(prev) + seq![x]) + enrich_model(
                        rv.skip(i as int + 1),
                        mv.skip(i as int + 1),
                        dates@,
                    ) =~= repos_view(prev) + (seq![x] + enrich_model(
                        rv.skip(i as int + 1),
                        mv.skip(i as int + 1),
                        dates@,
                    )));
                }
            },
            None => {},
        }
        i = i + 1;
    }
    proof {
        assert(rv.skip(rv.len() as int) =~= Seq::<LinkRef>::empty());
        assert(repos_view(out@) + Seq::<RepositoryView>::empty() =~= repos_view(out@));
    }
    out
}

/// The number of successfully fetched metadata slots.
pub open spec fn count_some(meta: Seq<Option<RepositoryView>>) -> int
    decreases meta.len(),
{
    if meta.len() == 0 {
        0
    } else {
        (if meta[0] is Some {
            1int
        } else {
            0int
        }) + count_some(meta.drop_first())
    }
}

/// Isolation: the merged record count equals the number of successful
/// metadata fetches — a failing target never costs more than itself.
pub proof fn lemma_enrich_isolation(
    refs: Seq<LinkRef>,
    meta: Seq<Option<RepositoryView>>,
    dates: Map<Seq<char>, Seq<char>>,
)
    requires
        meta.len() == refs.len(),
    ensures
        enrich_model(refs, meta, dates).len() == count_some(meta),
    decreases refs.len(),
{
    if refs.len() > 0 {
        lemma_enrich_isolation(refs.drop_first(), meta.drop_first(), dates);
    }
}

proof fn lemma_count_some_one_none(meta: Seq<Option<RepositoryView>>, f: int)
    requires
        0 <= f < meta.len(),
        meta[f] is None,
        forall|t: int| 0 <= t < meta.len() && t != f ==> (#[trigger] meta[t]) is Some,
    ensures
        count_some(meta) == meta.len() - 1,
    decreases meta.len(),
{
    if f == 0 {
        assert forall|t: int|
            0 <= t < meta.drop_first().len() implies (#[trigger] meta.drop_first()[t]) is Some by {
            assert(meta.drop_first()[t] == meta[t + 1]);
        }
        lemma_count_all_some(meta.drop_first());
    } else {
        assert forall|t: int|
            0 <= t < meta.drop_first().len() && t != f - 1 implies (#[trigger] meta.drop_first()[t])
            is Some by {
            assert(meta.drop_first()[t] == meta[t + 1]);
        }
        assert(meta.drop_first()[f - 1] == meta[f]);
        lemma_count_some_one_none(meta.drop_first(), f - 1);
    }
}

proof fn lemma_count_all_some(meta: Seq<Option<RepositoryView>>)
    requires
        forall|t: int| 0 <= t < meta.len() ==> (#[trigger] meta[t]) is Some,
    ensures
        count_some(meta) == meta.len(),
    decreases meta.len(),
{
    if meta.len() > 0 {
        assert forall|t: int|
            0 <= t < meta.drop_first().len() implies (#[trigger] meta.drop_first()[t]) is Some by {
            assert(meta.drop_first()[t] == meta[t + 1]);
        }
        lemma_count_all_some(meta.drop_first());
    }
}

/// Isolation, pinned to a single failure: if metadata fetch failed for
/// exactly one of N targets, the merged set still holds the other N-1
/// complete records.
pub proof fn lemma_enrich_one_failure(
    refs: Seq<LinkRef>,
    meta: Seq<Option<RepositoryView>>,
    dates: Map<Seq<char>, Seq<char>>,
    f: int,
)
    requires
        meta.len() == refs.len(),
        0 <= f < meta.len(),
        meta[f] is None,
        forall|t: int| 0 <= t < meta.len() && t != f ==> (#[trigger] meta[t]) is Some,
    ensures
        enrich_model(refs, meta, dates).len() == refs.len() - 1,
{
    lemma_enrich_isolation(refs, meta, dates);
    lemma_count_some_one_none(meta, f);
}

/// Graceful degradation: with an empty addition-date index — as after a
/// failed or empty commit-history fetch — enrichment still yields every
/// successful record, each with an absent addition date.
pub proof fn lemma_enrich_without_dates(refs: Seq<LinkRef>, meta: Seq<Option<RepositoryView>>)
    ensures
        forall|x: RepositoryView|
            #[trigger] enrich_model(refs, meta, Map::empty()).contains(x) ==> x.added_to_list_at
                is None,
    decreases refs.len(),
{
    if refs.len() == 0 || meta.len() == 0 {
    } else {
        lemma_enrich_without_dates(refs.drop_first(), meta.drop_first());
        let rest = enrich_model(refs.drop_first(), meta.drop_first(), Map::empty());
        assert forall|x: RepositoryView|
            #[trigger] enrich_model(refs, meta, Map::empty()).contains(x) implies x.added_to_list_at
            is None by {
            let s = enrich_model(refs, meta, Map::empty());
            let k = choose|k: int| 0 <= k < s.len() && s[k] == x;
            match meta[0] {
                Some(m) => {
                    if k > 0 {
                        assert(rest[k - 1] == x);
                        assert(rest.contains(x));
                    } else {
                        assert(!Map::<Seq<char>, Seq<char>>::empty().contains_key(
                            slug_of(refs[0].owner, refs[0].name),
                        ));
                    }
                },
                None => {
                    assert(rest[k] == x);
                    assert(rest.contains(x));
                },
            }
        }
    }
}

} // verus!
