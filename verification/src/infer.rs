//! The addition-date inferencer: the only available signal for "when was a
//! repository added to the list" is the list's own commit history, so for
//! each target the oldest commit whose message mentions it is taken as the
//! plausible addition commit. The heuristic is approximate by design — a
//! message containing "add" and a short repository name can match an
//! unrelated commit — and that looseness is kept as observable behaviour.

use vstd::prelude::*;
use vstd::string::*;

use crate::index::StringIndex;
use crate::models::{CommitRecord, CommitView};
use crate::text::{char_vec, contains_sub, has_char, has_sub};

verus! {

/// What `str::to_lowercase` returns on a string: a function of the
/// characters alone, named rather than spelled out.
pub uninterp spec fn lower_of(s: Seq<char>) -> Seq<char>;

/// Relies on `str::to_lowercase`: the result depends on the characters of
/// the input alone.
#[verifier::external_body]
fn lowercase(s: &str) -> (r: String)
    ensures
        r@ == lower_of(s@),
{
    s.to_lowercase()
}

/// The `"owner/name"` slug of a target.
pub open spec fn slug_of(owner: Seq<char>, name: Seq<char>) -> Seq<char> {
    owner + seq!['/'] + name
}

/// A commit message mentions a target when its lowercased text contains the
/// lowercased slug, or contains both the literal `"add"` and the lowercased
/// repository name alone.
pub open spec fn commit_matches(msg: Seq<char>, owner: Seq<char>, name: Seq<char>) -> bool {
    ||| has_sub(lower_of(msg), lower_of(slug_of(owner, name)))
    ||| (has_sub(lower_of(msg), "add"@) && has_sub(lower_of(msg), lower_of(name)))
}

/// The index of the first matching commit when walking oldest to newest:
/// commits arrive newest first, so that is the largest matching index, or
/// `-1` when none matches.
pub open spec fn last_match(commits: Seq<CommitView>, owner: Seq<char>, name: Seq<char>) -> int
    decreases commits.len(),
{
    if commits.len() == 0 {
        -1
    } else if commit_matches(commits.last().message, owner, name) {
        commits.len() - 1
    } else {
        last_match(commits.drop_last(), owner, name)
    }
}

/// The whole addition-date index for a commit history and a target sequence:
/// each matched target binds its slug to the authored date of its earliest
/// mention; unmatched targets stay absent.
pub open spec fn infer_model(
    commits: Seq<CommitView>,
    targets: Seq<(Seq<char>, Seq<char>)>,
) -> Map<Seq<char>, Seq<char>>
    decreases targets.len(),
{
    if targets.len() == 0 {
        Map::empty()
    } else {
        let m = infer_model(commits, targets.drop_last());
        let t = targets.last();
        let j = last_match(commits, t.0, t.1);
        if j >= 0 {
            m.insert(slug_of(t.0, t.1), commits[j].authored_date)
        } else {
            m
        }
    }
}

/// The view of a commit vector.
pub open spec fn commits_view(s: Seq<CommitRecord>) -> Seq<CommitView> {
    s.map_values(|c: CommitRecord| c@)
}

/// The view of a target vector.
pub open spec fn targets_view(s: Seq<(String, String)>) -> Seq<(Seq<char>, Seq<char>)> {
    s.map_values(|t: (String, String)| (t.0@, t.1@))
}

/// Finds the earliest (oldest-to-newest) mention of a target, scanning the
/// newest-first history from its end.
fn find_addition(
    commits: &Vec<CommitRecord>,
    msgs: &Vec<Vec<char>>,
    slug_low: &Vec<char>,
    name_low: &Vec<char>,
    add_lit: &Vec<char>,
    Ghost(owner): Ghost<Seq<char>>,
    Ghost(name): Ghost<Seq<char>>,
) -> (r: Option<usize>)
    requires
        msgs@.len() == commits@.len(),
        forall|t: int|
            0 <= t < commits@.len() ==> (#[trigger] msgs@[t])@ == lower_of(
                commits@[t].message@,
            ),
        slug_low@ == lower_of(slug_of(owner, name)),
        name_low@ == lower_of(name),
        add_lit@ == "add"@,
    ensures
        (match r {
            Some(j) => j < commits@.len() && j as int == last_match(
                commits_view(commits@),
                owner,
                name,
            ),
            None => last_match(commits_view(commits@), owner, name) == -1,
        }),
{
    let ghost cv = commits_view(commits@);
    let n = commits.len();
    let mut j: usize = n;
    proof {
        assert(cv.take(n as int) =~= cv);
    }
    while j > 0
        invariant
            j <= n,
            n == commits@.len(),
            msgs@.len() == commits@.len(),
            forall|t: int|
                0 <= t < commits@.len() ==> (#[trigger] msgs@[t])@ == lower_of(
                    commits@[t].message@,
                ),
            slug_low@ == lower_of(slug_of(owner, name)),
            name_low@ == lower_of(name),
            add_lit@ == "add"@,
            cv == commits_view(commits@),
            last_match(cv, owner, name) == last_match(cv.take(j as int), owner, name),
        decreases j,
    {
        let m = &msgs[j - 1];
        let hit = contains_sub(m, slug_low) || (contains_sub(m, add_lit) && contains_sub(
            m,
            name_low,
        ));
        proof {
            assert(cv[j - 1].message == commits@[j - 1].message@);
            assert(hit == commit_matches(cv[j - 1].message, owner, name));
            assert(cv.take(j as int).last() == cv[j - 1]);
        }
        if hit {
            return Some(j - 1);
        }
        proof {
            assert(cv.take(j as int).drop_last() =~= cv.take(j - 1));
        }
        j = j - 1;
    }
    proof {
        assert(cv.take(0) =~= Seq::<CommitView>::empty());
    }
    None
}

/// Builds the addition-date index for the given newest-first commit history
/// and extracted targets: per target, the authored date of its earliest
/// mention, walking the history oldest to newest; a target without a match
/// receives no entry. Pure in both inputs; an empty history yields an empty
/// index.
pub fn infer_added_dates(commits: &Vec<CommitRecord>, targets: &Vec<(String, String)>) -> (r:
    StringIndex)
    ensures
        r@ == infer_model(commits_view(commits@), targets_view(targets@)),
{
    let ghost cv = commits_view(commits@);
    let ghost tv = targets_view(targets@);
    let mut msgs: Vec<Vec<char>> = Vec::new();
    let mut i: usize = 0;
    while i < commits.len()
        invariant
            i <= commits@.len(),
            msgs@.len() == i,
            forall|t: int|
                0 <= t < i ==> (#[trigger] msgs@[t])@ == lower_of(commits@[t].message@),
        decreases commits@.len() - i,
    {
        let low = lowercase(commits[i].message.as_str());
        msgs.push(char_vec(low.as_str()));
        i = i + 1;
    }
    let add_lit = char_vec("add");
    let mut idx = StringIndex::new();
    let mut ti: usize = 0;
    proof {
        assert(tv.take(0) =~= Seq::<(Seq<char>, Seq<char>)>::empty());
    }
    while ti < targets.len()
        invariant
            ti <= targets@.len(),
            msgs@.len() == commits@.len(),
            forall|t: int|
                0 <= t < commits@.len() ==> (#[trigger] msgs@[t])@ == lower_of(
                    commits@[t].message@,
                ),
            add_lit@ == "add"@,
            cv == commits_view(commits@),
            tv == targets_view(targets@),
            tv.len() == targets@.len(),
            idx@ == infer_model(cv, tv.take(ti as int)),
        decreases targets@.len() - ti,
    {
        let t = &targets[ti];
        let mut slug = t.0.clone();
        slug.append("/");
        slug.append(t.1.as_str());
        proof {
            reveal_strlit("/");
            assert("/"@ =~= seq!['/']);
            assert(slug@ == slug_of(t.0@, t.1@));
            assert(tv[ti as int] == (t.0@, t.1@));
        }
        let slug_low_s = lowercase(slug.as_str());
        let slug_low = char_vec(slug_low_s.as_str());
        let name_low_s = lowercase(t.1.as_str());
        let name_low = char_vec(name_low_s.as_str());
        let found = find_addition(
            commits,
            &msgs,
            &slug_low,
            &name_low,
            &add_lit,
            Ghost(t.0@),
            Ghost(t.1@),
        );
        match found {
            Some(j) => {
                idx.insert(slug, commits[j].authored_date.clone());
                proof {
                    assert(cv[j as int].authored_date == commits@[j as int].authored_date@);
                }
            },
            None => {},
        }
        proof {
            assert(tv.take(ti as int + 1).drop_last() =~= tv.take(ti as int));
            assert(tv.take(ti as int + 1).last() == tv[ti as int]);
        }
        ti = ti + 1;
    }
    proof {
        assert(tv.take(tv.len() as int) =~= tv);
    }
    idx
}

/// The earliest-mention law: when `last_match` finds a commit it is a match,
/// and no commit older than it (later in newest-first order) matches; when it
/// finds none, no commit matches at all.
pub proof fn lemma_last_match_props(commits: Seq<CommitView>, owner: Seq<char>, name: Seq<char>)
    ensures
        -1 <= last_match(commits, owner, name) < commits.len(),
        last_match(commits, owner, name) >= 0 ==> commit_matches(
            commits[last_match(commits, owner, name)].message,
            owner,
            name,
        ),
        forall|t: int|
            last_match(commits, owner, name) < t < commits.len() ==> !commit_matches(
                (#[trigger] commits[t]).message,
                owner,
                name,
            ),
    decreases commits.len(),
{
    if commits.len() > 0 && !commit_matches(commits.last().message, owner, name) {
        lemma_last_match_props(commits.drop_last(), owner, name);
        assert forall|t: int|
            last_match(commits, owner, name) < t < commits.len() implies !commit_matches(
            (#[trigger] commits[t]).message,
            owner,
            name,
        ) by {
            if t < commits.len() - 1 {
                assert(commits.drop_last()[t] == commits[t]);
            }
        }
    }
}

/// Absence, per slug: a slug whose targets all lack a matching commit is
/// absent from the inferred index — absence, not an error or a placeholder.
/// The index is keyed by the slug, and two distinct targets can share one
/// slug when an owner itself holds `'/'`, so absence can only be promised of
/// a slug as a whole; `lemma_unmatched_target_absent` gives the per-target
/// statement for plain segments.
pub proof fn lemma_no_match_no_entry(
    commits: Seq<CommitView>,
    targets: Seq<(Seq<char>, Seq<char>)>,
    k: Seq<char>,
)
    requires
        forall|t: int|
            0 <= t < targets.len() ==> (slug_of((#[trigger] targets[t]).0, targets[t].1) == k
                ==> last_match(commits, targets[t].0, targets[t].1) == -1),
    ensures
        !infer_model(commits, targets).contains_key(k),
    decreases targets.len(),
{
    if targets.len() > 0 {
        assert forall|t: int|
            0 <= t < targets.drop_last().len() implies (slug_of(
            (#[trigger] targets.drop_last()[t]).0,
            targets.drop_last()[t].1,
        ) == k ==> last_match(commits, targets.drop_last()[t].0, targets.drop_last()[t].1)
            == -1) by {
            assert(targets.drop_last()[t] == targets[t]);
        }
        lemma_no_match_no_entry(commits, targets.drop_last(), k);
        assert(targets.last() == targets[targets.len() - 1]);
    }
}

/// A slug made of plain segments determines its target: when `o` and `n`
/// hold no `'/'`, any pair forming the same slug is `(o, n)` itself.
proof fn lemma_slug_injective(o: Seq<char>, n: Seq<char>, o2: Seq<char>, n2: Seq<char>)
    requires
        !has_char(o, '/'),
        !has_char(n, '/'),
        slug_of(o2, n2) == slug_of(o, n),
    ensures
        o2 == o,
        n2 == n,
{
    let s = slug_of(o, n);
    assert(s.len() == o.len() + 1 + n.len());
    assert(slug_of(o2, n2).len() == o2.len() + 1 + n2.len());
    assert(s[o.len() as int] == '/');
    assert(slug_of(o2, n2)[o2.len() as int] == '/');
    if o2.len() < o.len() {
        assert(s[o2.len() as int] == o[o2.len() as int]);
        assert(false);
    } else if o2.len() > o.len() {
        let k = o2.len() - o.len() - 1;
        assert(0 <= k < n.len());
        assert(s[o2.len() as int] == n[k as int]);
        assert(false);
    }
    assert forall|i: int| 0 <= i < o.len() implies o2[i] == o[i] by {
        assert(slug_of(o2, n2)[i] == o2[i]);
        assert(s[i] == o[i]);
    }
    assert(o2 =~= o);
    assert forall|i: int| 0 <= i < n.len() implies n2[i] == n[i] by {
        assert(slug_of(o2, n2)[o.len() + 1 + i] == n2[i]);
        assert(s[o.len() + 1 + i] == n[i]);
    }
    assert(n2 =~= n);
}

/// Absence, per target: a target whose owner and name are plain segments (no
/// `'/'`) and whose slug no commit message matches receives no entry in the
/// index, whatever the other targets are.
pub proof fn lemma_unmatched_target_absent(
    commits: Seq<CommitView>,
    targets: Seq<(Seq<char>, Seq<char>)>,
    o: Seq<char>,
    n: Seq<char>,
)
    requires
        !has_char(o, '/'),
        !has_char(n, '/'),
        last_match(commits, o, n) == -1,
    ensures
        !infer_model(commits, targets).contains_key(slug_of(o, n)),
{
    assert forall|t: int|
        0 <= t < targets.len() implies (slug_of((#[trigger] targets[t]).0, targets[t].1)
        == slug_of(o, n) ==> last_match(commits, targets[t].0, targets[t].1) == -1) by {
        if slug_of(targets[t].0, targets[t].1) == slug_of(o, n) {
            lemma_slug_injective(o, n, targets[t].0, targets[t].1);
        }
    }
    lemma_no_match_no_entry(commits, targets, slug_of(o, n));
}

/// Graceful degradation: an empty commit history yields an index empty for
/// every target.
pub proof fn lemma_empty_history_empty_index(targets: Seq<(Seq<char>, Seq<char>)>)
    ensures
        infer_model(Seq::<CommitView>::empty(), targets) == Map::<Seq<char>, Seq<char>>::empty(),
    decreases targets.len(),
{
    if targets.len() > 0 {
        lemma_empty_history_empty_index(targets.drop_last());
    }
}

} // verus!
