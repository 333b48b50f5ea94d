//! The computational pieces of the GitLab client: base-URL normalization,
//! list-query building, label-string splitting, and response normalization.
//! The REST calls around them are pass-through fetches and live with the
//! caller.

use vstd::prelude::*;
use vstd::string::*;

use crate::enrich::{lemma_trim_end_slashes_at, trim_end_slashes};
use crate::models::MergeRequest;
use crate::text::{
    char_is_space, char_vec, find_char, is_space, lemma_find_char_at, lemma_trimmed_end_at,
    lemma_trimmed_start_at, trimmed,
};

verus! {

/// Normalizes a base URL by dropping trailing slashes, as the client
/// constructor does.
pub fn trim_trailing_slashes(s: &str) -> (r: String)
    ensures
        r@ == trim_end_slashes(s@),
{
    let chars = char_vec(s);
    let n = chars.len();
    let mut end: usize = n;
    while end > 0 && chars[end - 1] == '/'
        invariant
            end <= n,
            n == chars@.len(),
            chars@ == s@,
            forall|t: int| end <= t < n ==> chars@[t] == '/',
        decreases end,
    {
        end = end - 1;
    }
    proof {
        lemma_trim_end_slashes_at(s@, end as int);
    }
    s.substring_char(0, end).to_owned()
}

/// The query string of the merge-request and issue list endpoints: always
/// scoped to all projects, with the optional state filter appended.
pub open spec fn scope_query_model(state: Option<Seq<char>>) -> Seq<char> {
    match state {
        None => "?scope=all"@,
        Some(s) => "?scope=all&state="@ + s,
    }
}

/// Builds the list query string for an optional state filter.
pub fn scope_query(state_filter: Option<&str>) -> (r: String)
    ensures
        r@ == scope_query_model(
            match state_filter {
                Some(s) => Some(s@),
                None => None,
            },
        ),
{
    match state_filter {
        None => "?scope=all".to_owned(),
        Some(s) => {
            let mut q = "?scope=all&state=".to_owned();
            q.append(s);
            q
        },
    }
}

/// The pieces of a string split at every comma, empty pieces included.
pub open spec fn split_commas(s: Seq<char>) -> Seq<Seq<char>>
    decreases s.len(),
{
    let i = find_char(s, ',');
    if 0 <= i && i < s.len() {
        seq![s.subrange(0, i)] + split_commas(s.subrange(i + 1, s.len() as int))
    } else {
        seq![s]
    }
}

/// Each piece trimmed, empty results dropped.
pub open spec fn nonempty_trims(pieces: Seq<Seq<char>>) -> Seq<Seq<char>>
    decreases pieces.len(),
{
    if pieces.len() == 0 {
        seq![]
    } else {
        let h = trimmed(pieces[0]);
        (if h.len() > 0 {
            seq![h]
        } else {
            seq![]
        }) + nonempty_trims(pieces.drop_first())
    }
}

/// What splitting a label string yields: the comma-separated pieces, each
/// trimmed, empty entries dropped.
pub open spec fn labels_model(s: Seq<char>) -> Seq<Seq<char>> {
    nonempty_trims(split_commas(s))
}

/// The view of a label vector.
pub open spec fn labels_view(s: Seq<String>) -> Seq<Seq<char>> {
    s.map_values(|t: String| t@)
}

/// Appends the trimmed content of `chars[a..b]` to `out`, unless it trims to
/// nothing.
fn push_trimmed(s: &str, chars: &Vec<char>, a: usize, b: usize, out: &mut Vec<String>)
    requires
        chars@ == s@,
        a <= b && b <= chars@.len(),
    ensures
        ({
            let sub = chars@.subrange(a as int, b as int);
            labels_view(final(out)@) == labels_view(old(out)@) + (if trimmed(sub).len() > 0 {
                seq![trimmed(sub)]
            } else {
                Seq::<Seq<char>>::empty()
            })
        }),
{
    let ghost sub = chars@.subrange(a as int, b as int);
    let mut p: usize = a;
    while p < b && char_is_space(chars[p])
        invariant
            a <= p <= b,
            b <= chars@.len(),
            forall|t: int| a <= t < p ==> is_space(chars@[t]),
        decreases b - p,
    {
        p = p + 1;
    }
    if p == b {
        proof {
            lemma_trimmed_start_at(sub, sub.len() as int);
            assert(sub.subrange(sub.len() as int, sub.len() as int) =~= Seq::<char>::empty());
            assert(trimmed(sub) =~= Seq::<char>::empty());
            assert(labels_view(out@) + Seq::<Seq<char>>::empty() =~= labels_view(out@));
        }
        return ;
    }
    let mut q: usize = b;
    while q > p && char_is_space(chars[q - 1])
        invariant
            p < b <= chars@.len(),
            !is_space(chars@[p as int]),
            p + 1 <= q <= b,
            forall|t: int| q <= t < b ==> is_space(chars@[t]),
        decreases q,
    {
        q = q - 1;
    }
    let ghost prev = out@;
    out.push(s.substring_char(p, q).to_owned());
    proof {
        lemma_trimmed_start_at(sub, p - a);
        assert(sub.subrange(p - a, sub.len() as int) =~= chars@.subrange(p as int, b as int));
        let mid = chars@.subrange(p as int, b as int);
        assert(!is_space(mid[0]));
        lemma_trimmed_end_at(mid, q - p);
        assert(mid.subrange(0, (q - p) as int) =~= chars@.subrange(p as int, q as int));
        assert(trimmed(sub) == chars@.subrange(p as int, q as int));
        assert(trimmed(sub).len() > 0);
        assert(labels_view(out@) =~= labels_view(prev).push(trimmed(sub)));
        assert(labels_view(prev).push(trimmed(sub)) =~= labels_view(prev) + seq![trimmed(sub)]);
    }
}

/// Splits a comma-separated label string into its trimmed, nonempty labels,
/// in order, as the issue-update call sends them.
pub fn split_labels(s: &str) -> (r: Vec<String>)
    ensures
        labels_view(r@) == labels_model(s@),
{
    let chars = char_vec(s);
    let n = chars.len();
    let mut out: Vec<String> = Vec::new();
    let mut start: usize = 0;
    let mut i: usize = 0;
    proof {
        assert(chars@.subrange(0, n as int) =~= chars@);
        assert(labels_view(out@) + nonempty_trims(split_commas(chars@)) =~= labels_model(s@));
    }
    while i < n
        invariant
            start <= i <= n,
            n == chars@.len(),
            chars@ == s@,
            forall|t: int| start <= t < i ==> chars@[t] != ',',
            labels_view(out@) + nonempty_trims(
                split_commas(chars@.subrange(start as int, n as int)),
            ) == labels_model(s@),
        decreases n - i,
    {
        if chars[i] == ',' {
            let ghost sub = chars@.subrange(start as int, n as int);
            let ghost piece = chars@.subrange(start as int, i as int);
            proof {
                assert forall|t: int| 0 <= t < i - start implies sub[t] != ',' by {
                    assert(sub[t] == chars@[start + t]);
                }
                lemma_find_char_at(sub, ',', i - start);
                assert(sub.subrange(0, i - start) =~= piece);
                assert(sub.subrange(i - start + 1, sub.len() as int) =~= chars@.subrange(
                    i + 1,
                    n as int,
                ));
                assert(split_commas(sub) == seq![piece] + split_commas(
                    chars@.subrange(i + 1, n as int),
                ));
                assert((seq![piece] + split_commas(chars@.subrange(i + 1, n as int)))[0] == piece);
                assert((seq![piece] + split_commas(chars@.subrange(i + 1, n as int))).drop_first()
                    =~= split_commas(chars@.subrange(i + 1, n as int)));
            }
            let ghost before = out@;
            push_trimmed(s, &chars, start, i, &mut out);
            proof {
                let h: Seq<Seq<char>> = if trimmed(piece).len() > 0 {
                    seq![trimmed(piece)]
                } else {
                    Seq::<Seq<char>>::empty()
                };
                assert((labels_view(before) + h) + nonempty_trims(
                    split_commas(chars@.subrange(i + 1, n as int)),
                ) =~= labels_view(before) + (h + nonempty_trims(
                    split_commas(chars@.subrange(i + 1, n as int)),
                )));
            }
            start = i + 1;
        }
        i = i + 1;
    }
    let ghost sub = chars@.subrange(start as int, n as int);
    proof {
        assert forall|t: int| 0 <= t < sub.len() implies sub[t] != ',' by {
            assert(sub[t] == chars@[start + t]);
        }
        lemma_find_char_at(sub, ',', sub.len() as int);
        assert(split_commas(sub) == seq![sub]);
        assert((seq![sub])[0] == sub);
        assert((seq![sub]).drop_first() =~= Seq::<Seq<char>>::empty());
        assert(nonempty_trims(Seq::<Seq<char>>::empty()) =~= Seq::<Seq<char>>::empty());
    }
    let ghost before = out@;
    push_trimmed(s, &chars, start, n, &mut out);
    proof {
        let h: Seq<Seq<char>> = if trimmed(sub).len() > 0 {
            seq![trimmed(sub)]
        } else {
            Seq::<Seq<char>>::empty()
        };
        assert(nonempty_trims(seq![sub]) =~= h + Seq::<Seq<char>>::empty());
        assert(h + Seq::<Seq<char>>::empty() =~= h);
        assert(labels_view(before) + h =~= labels_view(out@));
    }
    out
}

/// Merge requests equal in every field that normalization leaves untouched.
pub open spec fn mr_eq_except_reviewers(a: MergeRequest, b: MergeRequest) -> bool {
    &&& a.id == b.id
    &&& a.iid == b.iid
    &&& a.title == b.title
    &&& a.description == b.description
    &&& a.state == b.state
    &&& a.source_branch == b.source_branch
    &&& a.target_branch == b.target_branch
    &&& a.author == b.author
    &&& a.assignees == b.assignees
    &&& a.upvotes == b.upvotes
    &&& a.downvotes == b.downvotes
    &&& a.pipeline == b.pipeline
    &&& a.has_conflicts == b.has_conflicts
    &&& a.draft == b.draft
    &&& a.labels == b.labels
    &&& a.created_at == b.created_at
    &&& a.updated_at == b.updated_at
    &&& a.merged_at == b.merged_at
    &&& a.closed_at == b.closed_at
    &&& a.web_url == b.web_url
    &&& a.project_id == b.project_id
}

/// Normalizes freshly parsed merge requests: an absent approval list becomes
/// an empty one, a present list and every other field stay as they were.
pub fn normalize_reviewers(mrs: &mut Vec<MergeRequest>)
    ensures
        final(mrs)@.len() == old(mrs)@.len(),
        forall|i: int|
            0 <= i < old(mrs)@.len() ==> mr_eq_except_reviewers(
                #[trigger] final(mrs)@[i],
                old(mrs)@[i],
            ),
        forall|i: int| 0 <= i < old(mrs)@.len() ==> (#[trigger] final(mrs)@[i]).reviewers is Some,
        forall|i: int|
            0 <= i < old(mrs)@.len() && old(mrs)@[i].reviewers is Some
                ==> (#[trigger] final(mrs)@[i]).reviewers == old(mrs)@[i].reviewers,
        forall|i: int|
            0 <= i < old(mrs)@.len() && old(mrs)@[i].reviewers is None
                ==> (#[trigger] final(mrs)@[i]).reviewers->0@.len() == 0,
{
    let n = mrs.len();
    let mut j: usize = 0;
    while j < n
        invariant
            j <= n,
            n == old(mrs)@.len(),
            mrs@.len() == old(mrs)@.len(),
            forall|i: int| j <= i < n ==> #[trigger] mrs@[i] == old(mrs)@[i],
            forall|i: int|
                0 <= i < j ==> mr_eq_except_reviewers(#[trigger] mrs@[i], old(mrs)@[i]),
            forall|i: int| 0 <= i < j ==> (#[trigger] mrs@[i]).reviewers is Some,
            forall|i: int|
                0 <= i < j && old(mrs)@[i].reviewers is Some ==> (#[trigger] mrs@[i]).reviewers
                    == old(mrs)@[i].reviewers,
            forall|i: int|
                0 <= i < j && old(mrs)@[i].reviewers is None ==> (#[trigger] mrs@[i]).reviewers->0@
                    .len() == 0,
        decreases n - j,
    {
        let m = &mut mrs[j];
        if m.reviewers.is_none() {
            m.reviewers = Some(Vec::new());
        }
        j = j + 1;
    }
}

} // verus!
