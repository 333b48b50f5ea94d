//! The link extractor: a single line-oriented pass over a curated markdown
//! list that tracks the current level-2/3 heading as the category, collects
//! every GitHub repository URL, filters out sponsor links and query-string
//! artifacts, and keeps the first occurrence of each `(owner, name)` pair in
//! document order.
//!
//! The spec functions in this module are the authoritative model of the scan;
//! the executable functions are proved to compute exactly that model.

use vstd::prelude::*;
use vstd::string::*;

use crate::models::{LinkRef, RepoReference};
use crate::text::{
    char_is_space, char_vec, find_char, has_char, is_space, lemma_find_char_at,
    lemma_trimmed_end_at, lemma_trimmed_start_at, trimmed,
};

verus! {

/// A line with its terminating `"\r\n"` reduced to the bare content, the way
/// `str::lines` yields it.
pub open spec fn strip_cr(l: Seq<char>) -> Seq<char> {
    if l.len() > 0 && l.last() == '\r' {
        l.drop_last()
    } else {
        l
    }
}

/// The lines of a document: split at `'\n'`, a `'\r'` immediately before the
/// split removed, no empty final line after a trailing `'\n'`.
pub open spec fn split_lines(s: Seq<char>) -> Seq<Seq<char>>
    decreases s.len(),
{
    if s.len() == 0 {
        seq![]
    } else {
        let i = find_char(s, '\n');
        if 0 <= i && i < s.len() {
            seq![strip_cr(s.subrange(0, i))] + split_lines(s.subrange(i + 1, s.len() as int))
        } else {
            seq![s]
        }
    }
}

/// The default category for links that precede every qualifying heading.
pub open spec fn uncategorized() -> Seq<char> {
    "Uncategorized"@
}

/// The category a line establishes: for a level-2 or level-3 markdown heading
/// (exactly two or three `'#'`, one whitespace character, then at least one
/// further character), the heading text with surrounding whitespace trimmed;
/// any other line establishes none.
pub open spec fn heading_of(line: Seq<char>) -> Option<Seq<char>> {
    if line.len() >= 2 && line[0] == '#' && line[1] == '#' {
        let h: int = if line.len() >= 3 && line[2] == '#' {
            3
        } else {
            2
        };
        if h + 2 <= line.len() && is_space(line[h]) {
            Some(trimmed(line.subrange(h + 1, line.len() as int)))
        } else {
            None
        }
    } else {
        None
    }
}

/// The category in force after a line: a qualifying heading replaces it, any
/// other line leaves it.
pub open spec fn new_cat(line: Seq<char>, cat: Seq<char>) -> Seq<char> {
    match heading_of(line) {
        Some(t) => t,
        None => cat,
    }
}

/// `lit` occurs in `line` starting at position `i`.
pub open spec fn lit_at(line: Seq<char>, i: int, lit: Seq<char>) -> bool {
    0 <= i && i + lit.len() <= line.len() && line.subrange(i, i + lit.len() as int) == lit
}

/// The length of the GitHub URL prefix found at position `i`, or zero.
pub open spec fn github_at(line: Seq<char>, i: int) -> int {
    if lit_at(line, i, "https://github.com/"@) {
        "https://github.com/"@.len() as int
    } else if lit_at(line, i, "http://github.com/"@) {
        "http://github.com/"@.len() as int
    } else {
        0
    }
}

/// The end of the owner segment starting at `j`: the first position holding
/// `'/'` or whitespace, or the end of the line.
pub open spec fn owner_end(line: Seq<char>, j: int) -> int
    decreases line.len() - j,
{
    if 0 <= j && j < line.len() && line[j] != '/' && !is_space(line[j]) {
        owner_end(line, j + 1)
    } else {
        j
    }
}

/// The end of the repository-name segment starting at `j`: the first position
/// holding `'/'`, `')'`, `'#'` or whitespace, or the end of the line.
pub open spec fn name_end(line: Seq<char>, j: int) -> int
    decreases line.len() - j,
{
    if 0 <= j && j < line.len() && line[j] != '/' && line[j] != ')' && line[j] != '#' && !is_space(
        line[j],
    ) {
        name_end(line, j + 1)
    } else {
        j
    }
}

/// A repository URL match starting exactly at position `i`: the scheme and
/// host prefix, a nonempty owner segment closed by `'/'`, and a nonempty name
/// segment. Returns the owner start, the owner end, and the name end.
pub open spec fn match_at(line: Seq<char>, i: int) -> Option<(int, int, int)> {
    let l = github_at(line, i);
    if l == 0 {
        None
    } else {
        let os = i + l;
        let oe = owner_end(line, os);
        if os < oe && oe < line.len() && line[oe] == '/' {
            let ne = name_end(line, oe + 1);
            if oe + 1 < ne {
                Some((os, oe, ne))
            } else {
                None
            }
        } else {
            None
        }
    }
}

/// A candidate is kept unless its owner is the sponsors pseudo-account or its
/// name carries query-string characters.
pub open spec fn accept(owner: Seq<char>, name: Seq<char>) -> bool {
    owner != "sponsors"@ && !has_char(name, '?') && !has_char(name, '&')
}

/// The accepted references a line contributes from position `i` on, scanning
/// left to right over non-overlapping matches, all under category `cat`.
pub open spec fn line_refs(line: Seq<char>, cat: Seq<char>, i: int) -> Seq<LinkRef>
    decreases line.len() - i,
{
    if i < 0 || i >= line.len() {
        seq![]
    } else {
        match match_at(line, i) {
            Some((os, oe, ne)) => {
                if i < ne && ne <= line.len() {
                    let owner = line.subrange(os, oe);
                    let name = line.subrange(oe + 1, ne);
                    let head = if accept(owner, name) {
                        seq![(LinkRef { owner, name, category: cat })]
                    } else {
                        seq![]
                    };
                    head + line_refs(line, cat, ne)
                } else {
                    seq![]
                }
            },
            None => line_refs(line, cat, i + 1),
        }
    }
}

/// The accepted references of a whole document, line by line, with the
/// category state threaded through: a heading takes effect for the links on
/// its own line already.
pub open spec fn doc_refs(lines: Seq<Seq<char>>, cat: Seq<char>) -> Seq<LinkRef>
    decreases lines.len(),
{
    if lines.len() == 0 {
        seq![]
    } else {
        let c2 = new_cat(lines[0], cat);
        line_refs(lines[0], c2, 0) + doc_refs(lines.drop_first(), c2)
    }
}

/// The deduplication key of a reference: its `(owner, name)` pair.
pub open spec fn key_of(r: LinkRef) -> (Seq<char>, Seq<char>) {
    (r.owner, r.name)
}

/// The keys occurring in a reference sequence.
pub open spec fn keys_of(s: Seq<LinkRef>) -> Set<(Seq<char>, Seq<char>)> {
    Set::new(|k: (Seq<char>, Seq<char>)| exists|i: int| 0 <= i < s.len() && key_of(#[trigger] s[i]) == k)
}

/// Drops every reference whose key was already seen, keeping first
/// occurrences in order.
pub open spec fn dedup_rec(s: Seq<LinkRef>, seen: Set<(Seq<char>, Seq<char>)>) -> Seq<LinkRef>
    decreases s.len(),
{
    if s.len() == 0 {
        seq![]
    } else if seen.contains(key_of(s[0])) {
        dedup_rec(s.drop_first(), seen)
    } else {
        seq![s[0]] + dedup_rec(s.drop_first(), seen.insert(key_of(s[0])))
    }
}

/// First-occurrence deduplication of a reference sequence.
pub open spec fn dedup_first(s: Seq<LinkRef>) -> Seq<LinkRef> {
    dedup_rec(s, Set::empty())
}

/// What `extract` returns on a document: the accepted candidates in document
/// order, deduplicated by `(owner, name)` with the first occurrence kept.
pub open spec fn extract_model(doc: Seq<char>) -> Seq<LinkRef> {
    dedup_first(doc_refs(split_lines(doc), uncategorized()))
}

/// The view of a reference vector.
pub open spec fn refs_view(s: Seq<RepoReference>) -> Seq<LinkRef> {
    s.map_values(|r: RepoReference| r@)
}

/// Computes the boundaries of each line of `chars`, matching `split_lines`.
fn line_bounds(chars: &Vec<char>) -> (r: Vec<(usize, usize)>)
    ensures
        r@.len() == split_lines(chars@).len(),
        forall|k: int|
            0 <= k < r@.len() ==> (#[trigger] r@[k]).0 <= r@[k].1 && r@[k].1 <= chars@.len()
                && chars@.subrange(r@[k].0 as int, r@[k].1 as int) == split_lines(chars@)[k],
{
    let n = chars.len();
    let mut r: Vec<(usize, usize)> = Vec::new();
    let mut start: usize = 0;
    let mut i: usize = 0;
    proof {
        assert(chars@.subrange(0, n as int) =~= chars@);
    }
    while i < n
        invariant
            n == chars@.len(),
            start <= i <= n,
            forall|t: int| start <= t < i ==> chars@[t] != '\n',
            forall|k: int|
                0 <= k < r@.len() ==> (#[trigger] r@[k]).0 <= r@[k].1 && r@[k].1 <= n,
            split_lines(chars@) =~= r@.map_values(
                |p: (usize, usize)| chars@.subrange(p.0 as int, p.1 as int),
            ) + split_lines(chars@.subrange(start as int, n as int)),
        decreases n - i,
    {
        if chars[i] == '\n' {
            let e: usize = if i > start && chars[i - 1] == '\r' {
                i - 1
            } else {
                i
            };
            proof {
                let sub = chars@.subrange(start as int, n as int);
                assert forall|t: int| 0 <= t < i - start implies sub[t] != '\n' by {
                    assert(sub[t] == chars@[start + t]);
                }
                lemma_find_char_at(sub, '\n', i - start);
                assert(sub.subrange(0, i - start) =~= chars@.subrange(start as int, i as int));
                assert(strip_cr(chars@.subrange(start as int, i as int)) =~= chars@.subrange(
                    start as int,
                    e as int,
                ));
                assert(sub.subrange(i - start + 1, sub.len() as int) =~= chars@.subrange(
                    i + 1,
                    n as int,
                ));
                let f = |p: (usize, usize)| chars@.subrange(p.0 as int, p.1 as int);
                assert(r@.push((start, e)).map_values(f) =~= r@.map_values(f).push(
                    chars@.subrange(start as int, e as int),
                ));
            }
            r.push((start, e));
            start = i + 1;
        }
        i = i + 1;
    }
    if start < n {
        proof {
            let sub = chars@.subrange(start as int, n as int);
            assert forall|t: int| 0 <= t < sub.len() implies sub[t] != '\n' by {
                assert(sub[t] == chars@[start + t]);
            }
            lemma_find_char_at(sub, '\n', sub.len() as int);
            let f = |p: (usize, usize)| chars@.subrange(p.0 as int, p.1 as int);
            assert(r@.push((start, n)).map_values(f) =~= r@.map_values(f).push(sub));
        }
        r.push((start, n));
    } else {
        proof {
            assert(chars@.subrange(start as int, n as int).len() == 0);
        }
    }
    proof {
        let f = |p: (usize, usize)| chars@.subrange(p.0 as int, p.1 as int);
        assert(split_lines(chars@) =~= r@.map_values(f));
        assert forall|k: int| 0 <= k < r@.len() implies chars@.subrange(
            (#[trigger] r@[k]).0 as int,
            r@[k].1 as int,
        ) == split_lines(chars@)[k] by {
            assert(r@.map_values(f)[k] == f(r@[k]));
        }
    }
    r
}

/// Recognizes a heading line within `chars[a..b]` and returns its trimmed
/// text, matching `heading_of`.
fn line_heading(doc: &str, chars: &Vec<char>, a: usize, b: usize) -> (r: Option<String>)
    requires
        chars@ == doc@,
        a <= b && b <= chars@.len(),
    ensures
        (match r {
            Some(s) => heading_of(chars@.subrange(a as int, b as int)) == Some(s@),
            None => heading_of(chars@.subrange(a as int, b as int)) is None,
        }),
{
    let ghost line = chars@.subrange(a as int, b as int);
    let len = b - a;
    if !(len >= 2 && chars[a] == '#' && chars[a + 1] == '#') {
        return None;
    }
    let h: usize = if len >= 3 && chars[a + 2] == '#' {
        3
    } else {
        2
    };
    if h + 2 > len {
        return None;
    }
    if !char_is_space(chars[a + h]) {
        return None;
    }
    let ghost sub = line.subrange(h + 1, line.len() as int);
    proof {
        assert(sub =~= chars@.subrange((a + h + 1) as int, b as int));
    }
    let mut p: usize = a + h + 1;
    while p < b && char_is_space(chars[p])
        invariant
            a + h + 1 <= p <= b,
            b <= chars@.len(),
            forall|t: int| a + h + 1 <= t < p ==> is_space(chars@[t]),
        decreases b - p,
    {
        p = p + 1;
    }
    if p == b {
        proof {
            lemma_trimmed_start_at(sub, sub.len() as int);
            assert(sub.subrange(sub.len() as int, sub.len() as int) =~= Seq::<char>::empty());
            assert(trimmed(sub) =~= Seq::<char>::empty());
        }
        return Some(String::new());
    }
    let mut q: usize = b;
    while q > p && char_is_space(chars[q - 1])
        invariant
            p < b <= chars@.len(),
            !is_space(chars@[p as int]),
            p + 1 <= q <= b,
            forall|t: int| q <= t < b ==> is_space(chars@[t]),
        decreases q,
    {
        q = q - 1;
    }
    let s = doc.substring_char(p, q).to_owned();
    proof {
        lemma_trimmed_start_at(sub, p - (a + h + 1));
        assert(sub.subrange(p - (a + h + 1), sub.len() as int) =~= chars@.subrange(
            p as int,
            b as int,
        ));
        let mid = chars@.subrange(p as int, b as int);
        assert(!is_space(mid[0]));
        lemma_trimmed_end_at(mid, q - p);
        assert(mid.subrange(0, (q - p) as int) =~= chars@.subrange(p as int, q as int));
        assert(heading_of(line) == Some(s@));
    }
    Some(s)
}

/// Finds the end of the owner segment, matching `owner_end`.
fn scan_owner_end(chars: &Vec<char>, a: usize, b: usize, j: usize) -> (r: usize)
    requires
        a <= b && b <= chars@.len(),
        j <= b - a,
    ensures
        r == owner_end(chars@.subrange(a as int, b as int), j as int),
        j <= r <= b - a,
{
    let ghost line = chars@.subrange(a as int, b as int);
    let mut p: usize = j;
    while p < b - a && chars[a + p] != '/' && !char_is_space(chars[a + p])
        invariant
            j <= p <= b - a,
            a <= b && b <= chars@.len(),
            line == chars@.subrange(a as int, b as int),
            owner_end(line, j as int) == owner_end(line, p as int),
        decreases b - a - p,
    {
        proof {
            assert(line[p as int] == chars@[a + p]);
        }
        p = p + 1;
    }
    proof {
        if p < b - a {
            assert(line[p as int] == chars@[a + p]);
        }
    }
    p
}

/// Finds the end of the repository-name segment, matching `name_end`.
fn scan_name_end(chars: &Vec<char>, a: usize, b: usize, j: usize) -> (r: usize)
    requires
        a <= b && b <= chars@.len(),
        j <= b - a,
    ensures
        r == name_end(chars@.subrange(a as int, b as int), j as int),
        j <= r <= b - a,
{
    let ghost line = chars@.subrange(a as int, b as int);
    let mut p: usize = j;
    while p < b - a && chars[a + p] != '/' && chars[a + p] != ')' && chars[a + p] != '#'
        && !char_is_space(chars[a + p])
        invariant
            j <= p <= b - a,
            a <= b && b <= chars@.len(),
            line == chars@.subrange(a as int, b as int),
            name_end(line, j as int) == name_end(line, p as int),
        decreases b - a - p,
    {
        proof {
            assert(line[p as int] == chars@[a + p]);
        }
        p = p + 1;
    }
    proof {
        if p < b - a {
            assert(line[p as int] == chars@[a + p]);
        }
    }
    p
}

/// Tests whether `lit` occurs at position `i` of `chars[a..b]`, matching
/// `lit_at`.
fn lit_match(chars: &Vec<char>, a: usize, b: usize, i: usize, lit: &str) -> (r: bool)
    requires
        a <= b && b <= chars@.len(),
    ensures
        r == lit_at(chars@.subrange(a as int, b as int), i as int, lit@),
{
    let ghost line = chars@.subrange(a as int, b as int);
    let len = b - a;
    let ll = lit.unicode_len();
    if i > len || ll > len - i {
        return false;
    }
    let mut j: usize = 0;
    while j < ll
        invariant
            i + ll <= len,
            len == b - a,
            a <= b && b <= chars@.len(),
            ll == lit@.len(),
            j <= ll,
            line == chars@.subrange(a as int, b as int),
            forall|t: int| 0 <= t < j ==> line[i + t] == lit@[t],
        decreases ll - j,
    {
        if chars[a + i + j] != lit.get_char(j) {
            proof {
                assert(line[i + j] == chars@[a + i + j]);
                assert(line.subrange(i as int, i + lit@.len() as int)[j as int] == line[i + j]);
            }
            return false;
        }
        proof {
            assert(line[i + j] == chars@[a + i + j]);
        }
        j = j + 1;
    }
    proof {
        assert(line.subrange(i as int, i + lit@.len() as int) =~= lit@);
    }
    true
}

/// Attempts a repository URL match at position `i` of `chars[a..b]`,
/// matching `match_at`.
fn try_match(chars: &Vec<char>, a: usize, b: usize, i: usize) -> (r: Option<(usize, usize, usize)>)
    requires
        a <= b && b <= chars@.len(),
        i < b - a,
    ensures
        (match r {
            Some(t) => match_at(chars@.subrange(a as int, b as int), i as int) == Some(
                (t.0 as int, t.1 as int, t.2 as int),
            ) && i < t.0 && t.0 < t.1 && t.1 + 1 < t.2 && t.2 <= b - a,
            None => match_at(chars@.subrange(a as int, b as int), i as int) is None,
        }),
{
    let ghost line = chars@.subrange(a as int, b as int);
    proof {
        reveal_strlit("https://github.com/");
        reveal_strlit("http://github.com/");
    }
    let l: usize = if lit_match(chars, a, b, i, "https://github.com/") {
        "https://github.com/".unicode_len()
    } else if lit_match(chars, a, b, i, "http://github.com/") {
        "http://github.com/".unicode_len()
    } else {
        0
    };
    proof {
        assert(github_at(line, i as int) == l as int);
    }
    if l == 0 {
        return None;
    }
    let os = i + l;
    let oe = scan_owner_end(chars, a, b, os);
    if !(os < oe && oe < b - a) {
        return None;
    }
    if chars[a + oe] != '/' {
        proof {
            assert(line[oe as int] == chars@[a + oe]);
        }
        return None;
    }
    proof {
        assert(line[oe as int] == chars@[a + oe]);
    }
    let ne = scan_name_end(chars, a, b, oe + 1);
    if ne <= oe + 1 {
        return None;
    }
    Some((os, oe, ne))
}

/// Tests whether `c` occurs in `chars[from..to]`.
fn range_has_char(chars: &Vec<char>, from: usize, to: usize, c: char) -> (r: bool)
    requires
        from <= to && to <= chars@.len(),
    ensures
        r == has_char(chars@.subrange(from as int, to as int), c),
{
    let ghost sub = chars@.subrange(from as int, to as int);
    let mut p: usize = from;
    while p < to
        invariant
            from <= p <= to && to <= chars@.len(),
            sub == chars@.subrange(from as int, to as int),
            forall|t: int| from <= t < p ==> chars@[t] != c,
        decreases to - p,
    {
        if chars[p] == c {
            proof {
                assert(sub[p - from] == c);
            }
            return true;
        }
        p = p + 1;
    }
    proof {
        assert forall|t: int| 0 <= t < sub.len() implies sub[t] != c by {
            assert(sub[t] == chars@[from + t]);
        }
    }
    false
}

/// Appends to `out` every accepted reference of the line `chars[a..b]` under
/// category `cat`, matching `line_refs`.
fn line_links(
    doc: &str,
    chars: &Vec<char>,
    a: usize,
    b: usize,
    cat: &String,
    out: &mut Vec<RepoReference>,
)
    requires
        chars@ == doc@,
        a <= b && b <= chars@.len(),
    ensures
        refs_view(final(out)@) == refs_view(old(out)@) + line_refs(
            chars@.subrange(a as int, b as int),
            cat@,
            0,
        ),
{
    let ghost line = chars@.subrange(a as int, b as int);
    let len = b - a;
    let mut i: usize = 0;
    proof {
        assert(refs_view(out@) + line_refs(line, cat@, 0) =~= refs_view(old(out)@) + line_refs(
            line,
            cat@,
            0,
        ));
    }
    while i < len
        invariant
            chars@ == doc@,
            a <= b && b <= chars@.len(),
            len == b - a,
            i <= len,
            line == chars@.subrange(a as int, b as int),
            refs_view(out@) + line_refs(line, cat@, i as int) == refs_view(old(out)@) + line_refs(
                line,
                cat@,
                0,
            ),
        decreases len - i,
    {
        match try_match(chars, a, b, i) {
            Some((os, oe, ne)) => {
                let ghost owner_s = line.subrange(os as int, oe as int);
                let ghost name_s = line.subrange(oe as int + 1, ne as int);
                let owner = doc.substring_char(a + os, a + oe).to_owned();
                let name = doc.substring_char(a + oe + 1, a + ne).to_owned();
                proof {
                    assert(owner@ =~= owner_s);
                    assert(name@ =~= name_s);
                    assert(chars@.subrange(a + oe + 1, a + ne as int) =~= name_s);
                }
                let sponsors: String = "sponsors".to_owned();
                let ok = !(owner == sponsors) && !range_has_char(chars, a + oe + 1, a + ne, '?')
                    && !range_has_char(chars, a + oe + 1, a + ne, '&');
                proof {
                    assert(ok == accept(owner_s, name_s));
                }
                let ghost prev = out@;
                if ok {
                    out.push(RepoReference { owner, name, category: cat.clone() });
                    proof {
                        let x = (LinkRef { owner: owner_s, name: name_s, category: cat@ });
                        assert(out@[out@.len() - 1]@ =~= x);
                        assert(refs_view(out@) =~= refs_view(prev).push(x));
                        assert(refs_view(prev).push(x) =~= refs_view(prev) + seq![x]);
                        assert((refs_view(prev) + seq![x]) + line_refs(line, cat@, ne as int)
                            =~= refs_view(prev) + (seq![x] + line_refs(line, cat@, ne as int)));
                    }
                } else {
                    proof {
                        assert(Seq::<LinkRef>::empty() + line_refs(line, cat@, ne as int)
                            =~= line_refs(line, cat@, ne as int));
                    }
                }
                i = ne;
            },
            None => {
                proof {
                    assert(line_refs(line, cat@, i as int) == line_refs(line, cat@, i + 1));
                }
                i = i + 1;
            },
        }
    }
}

/// First-occurrence deduplication by `(owner, name)`, matching `dedup_first`.
fn dedup(cands: Vec<RepoReference>) -> (r: Vec<RepoReference>)
    ensures
        refs_view(r@) == dedup_first(refs_view(cands@)),
{
    let mut out: Vec<RepoReference> = Vec::new();
    let mut idx: usize = 0;
    proof {
        assert(refs_view(cands@).skip(0) =~= refs_view(cands@));
        assert(keys_of(refs_view(out@)) =~= Set::<(Seq<char>, Seq<char>)>::empty());
        assert(refs_view(out@) + dedup_first(refs_view(cands@)) =~= dedup_first(refs_view(cands@)));
    }
    while idx < cands.len()
        invariant
            idx <= cands@.len(),
            refs_view(out@) + dedup_rec(
                refs_view(cands@).skip(idx as int),
                keys_of(refs_view(out@)),
            ) == dedup_first(refs_view(cands@)),
        decreases cands@.len() - idx,
    {
        let c = &cands[idx];
        let mut j: usize = 0;
        let mut found = false;
        while j < out.len()
            invariant
                j <= out@.len(),
                idx < cands@.len(),
                *c == cands@[idx as int],
                found == exists|t: int|
                    0 <= t < j && key_of((#[trigger] out@[t])@) == key_of(cands@[idx as int]@),
            decreases out@.len() - j,
        {
            let e = &out[j];
            if e.owner == c.owner && e.name == c.name {
                found = true;
                proof {
                    assert(key_of(out@[j as int]@) == key_of(cands@[idx as int]@));
                }
            }
            j = j + 1;
        }
        let ghost rest = refs_view(cands@).skip(idx as int);
        let ghost seen = keys_of(refs_view(out@));
        proof {
            assert(rest[0] == cands@[idx as int]@);
            assert(rest.drop_first() =~= refs_view(cands@).skip(idx as int + 1));
            if found {
                let t = choose|t: int|
                    0 <= t < out@.len() && key_of((#[trigger] out@[t])@) == key_of(
                        cands@[idx as int]@,
                    );
                assert(refs_view(out@)[t] == out@[t]@);
                assert(seen.contains(key_of(rest[0])));
            } else {
                assert forall|t: int|
                    0 <= t < refs_view(out@).len() implies key_of(
                    #[trigger] refs_view(out@)[t],
                ) != key_of(rest[0]) by {
                    assert(refs_view(out@)[t] == out@[t]@);
                }
                assert(!seen.contains(key_of(rest[0])));
            }
        }
        if !found {
            let ghost prev = out@;
            out.push(
                RepoReference {
                    owner: c.owner.clone(),
                    name: c.name.clone(),
                    category: c.category.clone(),
                },
            );
            proof {
                let x = cands@[idx as int]@;
                assert(out@[out@.len() - 1]@ =~= x);
                assert(refs_view(out@) =~= refs_view(prev).push(x));
                lemma_keys_push(refs_view(prev), x);
                assert(refs_view(prev).push(x) =~= refs_view(prev) + seq![x]);
                assert((refs_view(prev) + seq![x]) + dedup_rec(
                    rest.drop_first(),
                    seen.insert(key_of(x)),
                ) =~= refs_view(prev) + (seq![x] + dedup_rec(
                    rest.drop_first(),
                    seen.insert(key_of(x)),
                )));
            }
        }
        idx = idx + 1;
    }
    proof {
        assert(refs_view(cands@).skip(cands@.len() as int) =~= Seq::<LinkRef>::empty());
        assert(refs_view(out@) + Seq::<LinkRef>::empty() =~= refs_view(out@));
    }
    out
}

/// Appending a reference extends the key set by its key.
proof fn lemma_keys_push(s: Seq<LinkRef>, x: LinkRef)
    ensures
        keys_of(s.push(x)) =~= keys_of(s).insert(key_of(x)),
{
    assert forall|k: (Seq<char>, Seq<char>)| keys_of(s.push(x)).contains(k) implies keys_of(
        s,
    ).insert(key_of(x)).contains(k) by {
        let i = choose|i: int| 0 <= i < s.push(x).len() && key_of(#[trigger] s.push(x)[i]) == k;
        if i < s.len() {
            assert(s.push(x)[i] == s[i]);
            assert(keys_of(s).contains(k));
        } else {
            assert(s.push(x)[i] == x);
        }
    }
    assert forall|k: (Seq<char>, Seq<char>)| keys_of(s).insert(key_of(x)).contains(k) implies keys_of(
        s.push(x),
    ).contains(k) by {
        if k == key_of(x) {
            assert(s.push(x)[s.len() as int] == x);
            assert(key_of(s.push(x)[s.len() as int]) == k);
        } else {
            let i = choose|i: int| 0 <= i < s.len() && key_of(#[trigger] s[i]) == k;
            assert(s.push(x)[i] == s[i]);
            assert(key_of(s.push(x)[i]) == k);
        }
    }
}

/// Parses a curated list document into its ordered, deduplicated, categorized
/// repository references. Total over any input: a document without links
/// simply yields an empty vector.
pub fn extract(document: &str) -> (r: Vec<RepoReference>)
    ensures
        refs_view(r@) == extract_model(document@),
        forall|i: int, j: int|
            0 <= i < j < r@.len() ==> key_of((#[trigger] r@[i])@) != key_of((#[trigger] r@[j])@),
{
    proof {
        lemma_dedup_rec_props(doc_refs(split_lines(document@), uncategorized()), Set::empty());
    }
    let chars = char_vec(document);
    let bounds = line_bounds(&chars);
    let ghost lines = split_lines(document@);
    let mut cat: String = "Uncategorized".to_owned();
    let mut cands: Vec<RepoReference> = Vec::new();
    let mut k: usize = 0;
    proof {
        assert(lines.skip(0) =~= lines);
        assert(refs_view(cands@) + doc_refs(lines, cat@) =~= doc_refs(lines, uncategorized()));
    }
    while k < bounds.len()
        invariant
            chars@ == document@,
            bounds@.len() == lines.len(),
            lines == split_lines(document@),
            forall|t: int|
                0 <= t < bounds@.len() ==> (#[trigger] bounds@[t]).0 <= bounds@[t].1
                    && bounds@[t].1 <= chars@.len() && chars@.subrange(
                    bounds@[t].0 as int,
                    bounds@[t].1 as int,
                ) == lines[t],
            k <= lines.len(),
            refs_view(cands@) + doc_refs(lines.skip(k as int), cat@) == doc_refs(
                lines,
                uncategorized(),
            ),
        decreases bounds@.len() - k,
    {
        let (a, b) = bounds[k];
        let ghost line = lines[k as int];
        let ghost oldcat = cat@;
        match line_heading(document, &chars, a, b) {
            Some(t) => {
                cat = t;
            },
            None => {},
        }
        proof {
            assert(cat@ == new_cat(line, oldcat));
            assert(lines.skip(k as int)[0] == lines[k as int]);
            assert(lines.skip(k as int).drop_first() =~= lines.skip(k as int + 1));
        }
        let ghost before = cands@;
        line_links(document, &chars, a, b, &cat, &mut cands);
        proof {
            assert((refs_view(before) + line_refs(line, cat@, 0)) + doc_refs(
                lines.skip(k as int + 1),
                cat@,
            ) =~= refs_view(before) + (line_refs(line, cat@, 0) + doc_refs(
                lines.skip(k as int + 1),
                cat@,
            )));
        }
        k = k + 1;
    }
    proof {
        assert(lines.skip(lines.len() as int) =~= Seq::<Seq<char>>::empty());
        assert(refs_view(cands@) + Seq::<LinkRef>::empty() =~= refs_view(cands@));
    }
    let r = dedup(cands);
    proof {
        assert forall|i: int, j: int|
            0 <= i < j < r@.len() implies key_of((#[trigger] r@[i])@) != key_of(
            (#[trigger] r@[j])@,
        ) by {
            assert(refs_view(r@)[i] == r@[i]@);
            assert(refs_view(r@)[j] == r@[j]@);
        }
    }
    r
}

/// The view of a `(owner, name, category)` triple.
pub open spec fn triple_view(t: (String, String, String)) -> LinkRef {
    LinkRef { owner: t.0@, name: t.1@, category: t.2@ }
}

/// The view of a vector of triples.
pub open spec fn triples_view(s: Seq<(String, String, String)>) -> Seq<LinkRef> {
    s.map_values(|t: (String, String, String)| triple_view(t))
}

/// The view of a `(owner, name)` pair.
pub open spec fn pair_view(t: (String, String)) -> (Seq<char>, Seq<char>) {
    (t.0@, t.1@)
}

/// The view of a vector of pairs.
pub open spec fn pairs_view(s: Seq<(String, String)>) -> Seq<(Seq<char>, Seq<char>)> {
    s.map_values(|t: (String, String)| pair_view(t))
}

/// Extracts the categorized repository links of a markdown document as
/// `(owner, name, category)` triples, in document order of first occurrence.
pub fn extract_repo_links_with_categories(markdown: &str) -> (r: Vec<(String, String, String)>)
    ensures
        triples_view(r@) == extract_model(markdown@),
{
    let refs = extract(markdown);
    let mut r: Vec<(String, String, String)> = Vec::new();
    let mut i: usize = 0;
    proof {
        assert(triples_view(r@) =~= refs_view(refs@).take(0));
    }
    while i < refs.len()
        invariant
            i <= refs@.len(),
            refs_view(refs@) == extract_model(markdown@),
            triples_view(r@) == refs_view(refs@).take(i as int),
        decreases refs@.len() - i,
    {
        let e = &refs[i];
        let ghost prev = r@;
        r.push((e.owner.clone(), e.name.clone(), e.category.clone()));
        proof {
            assert(triples_view(r@) =~= triples_view(prev).push(refs@[i as int]@));
            assert(refs_view(refs@).take(i as int + 1) =~= refs_view(refs@).take(i as int).push(
                refs_view(refs@)[i as int],
            ));
        }
        i = i + 1;
    }
    proof {
        assert(refs_view(refs@).take(refs@.len() as int) =~= refs_view(refs@));
    }
    r
}

/// Extracts the deduplicated repository links of a markdown document as
/// `(owner, name)` pairs, in document order of first occurrence.
pub fn extract_repo_links(markdown: &str) -> (r: Vec<(String, String)>)
    ensures
        pairs_view(r@) == extract_model(markdown@).map_values(|l: LinkRef| key_of(l)),
{
    let refs = extract(markdown);
    let ghost keys = extract_model(markdown@).map_values(|l: LinkRef| key_of(l));
    let mut r: Vec<(String, String)> = Vec::new();
    let mut i: usize = 0;
    proof {
        assert(pairs_view(r@) =~= keys.take(0));
    }
    while i < refs.len()
        invariant
            i <= refs@.len(),
            refs_view(refs@) == extract_model(markdown@),
            keys == extract_model(markdown@).map_values(|l: LinkRef| key_of(l)),
            keys.len() == refs@.len(),
            pairs_view(r@) == keys.take(i as int),
        decreases refs@.len() - i,
    {
        let e = &refs[i];
        let ghost prev = r@;
        r.push((e.owner.clone(), e.name.clone()));
        proof {
            assert(pairs_view(r@) =~= pairs_view(prev).push(pair_view((e.owner, e.name))));
            assert(keys[i as int] == key_of(refs_view(refs@)[i as int]));
            assert(keys.take(i as int + 1) =~= keys.take(i as int).push(keys[i as int]));
        }
        i = i + 1;
    }
    proof {
        assert(keys.take(keys.len() as int) =~= keys);
    }
    r
}

/// Structural facts about first-occurrence deduplication: the result has
/// pairwise distinct keys, none of them already seen, and every element is
/// drawn from the input.
pub proof fn lemma_dedup_rec_props(s: Seq<LinkRef>, seen: Set<(Seq<char>, Seq<char>)>)
    ensures
        forall|i: int, j: int|
            0 <= i < j < dedup_rec(s, seen).len() ==> key_of(#[trigger] dedup_rec(s, seen)[i])
                != key_of(#[trigger] dedup_rec(s, seen)[j]),
        forall|i: int|
            0 <= i < dedup_rec(s, seen).len() ==> !seen.contains(
                key_of(#[trigger] dedup_rec(s, seen)[i]),
            ),
        forall|x: LinkRef| #[trigger] dedup_rec(s, seen).contains(x) ==> s.contains(x),
    decreases s.len(),
{
    if s.len() == 0 {
    } else if seen.contains(key_of(s[0])) {
        lemma_dedup_rec_props(s.drop_first(), seen);
        assert(dedup_rec(s, seen) == dedup_rec(s.drop_first(), seen));
        assert forall|x: LinkRef| #[trigger] dedup_rec(s, seen).contains(x) implies s.contains(
            x,
        ) by {
            assert(dedup_rec(s.drop_first(), seen).contains(x));
            assert(s.drop_first().contains(x));
            let j = choose|j: int| 0 <= j < s.drop_first().len() && s.drop_first()[j] == x;
            assert(s[j + 1] == x);
        }
    } else {
        let seen2 = seen.insert(key_of(s[0]));
        let rest = dedup_rec(s.drop_first(), seen2);
        let out = dedup_rec(s, seen);
        lemma_dedup_rec_props(s.drop_first(), seen2);
        assert(out == seq![s[0]] + rest);
        assert(out[0] == s[0]);
        assert forall|i: int| 0 <= i < out.len() implies !seen.contains(key_of(out[i])) by {
            if i > 0 {
                assert(out[i] == rest[i - 1]);
            }
        }
        assert forall|i: int, j: int| 0 <= i < j < out.len() implies key_of(out[i]) != key_of(
            out[j],
        ) by {
            assert(out[j] == rest[j - 1]);
            if i == 0 {
                assert(!seen2.contains(key_of(rest[j - 1])));
            } else {
                assert(out[i] == rest[i - 1]);
            }
        }
        assert forall|x: LinkRef| #[trigger] out.contains(x) implies s.contains(x) by {
            let i = choose|i: int| 0 <= i < out.len() && out[i] == x;
            if i == 0 {
                assert(s[0] == x);
            } else {
                assert(rest[i - 1] == x);
                assert(rest.contains(x));
                assert(s.drop_first().contains(x));
                let j = choose|j: int| 0 <= j < s.drop_first().len() && s.drop_first()[j] == x;
                assert(s[j + 1] == x);
            }
        }
    }
}

/// Deduplication keeps the first occurrence of each key.
proof fn lemma_dedup_rec_keeps_first(s: Seq<LinkRef>, seen: Set<(Seq<char>, Seq<char>)>, i: int)
    requires
        0 <= i < s.len(),
        !seen.contains(key_of(s[i])),
        forall|j: int| 0 <= j < i ==> key_of(#[trigger] s[j]) != key_of(s[i]),
    ensures
        dedup_rec(s, seen).contains(s[i]),
    decreases s.len(),
{
    let out = dedup_rec(s, seen);
    if i == 0 {
        assert(out[0] == s[0]);
        assert(out.contains(s[0]));
    } else {
        if seen.contains(key_of(s[0])) {
            assert forall|j: int| 0 <= j < i - 1 implies key_of(#[trigger] s.drop_first()[j])
                != key_of(s.drop_first()[i - 1]) by {
                assert(s.drop_first()[j] == s[j + 1]);
            }
            lemma_dedup_rec_keeps_first(s.drop_first(), seen, i - 1);
        } else {
            let seen2 = seen.insert(key_of(s[0]));
            assert(key_of(s[0]) != key_of(s[i]));
            assert forall|j: int| 0 <= j < i - 1 implies key_of(#[trigger] s.drop_first()[j])
                != key_of(s.drop_first()[i - 1]) by {
                assert(s.drop_first()[j] == s[j + 1]);
            }
            lemma_dedup_rec_keeps_first(s.drop_first(), seen2, i - 1);
            let rest = dedup_rec(s.drop_first(), seen2);
            let k = choose|k: int| 0 <= k < rest.len() && rest[k] == s[i];
            assert(out[k + 1] == rest[k]);
            assert(out.contains(s[i]));
        }
    }
}

/// Every reference a line contributes carries the category it was scanned
/// under and passes the rejection filter.
proof fn lemma_line_refs_props(line: Seq<char>, cat: Seq<char>, i: int)
    ensures
        forall|x: LinkRef| #[trigger] line_refs(line, cat, i).contains(x) ==> x.category == cat
            && accept(x.owner, x.name),
    decreases line.len() - i,
{
    if i < 0 || i >= line.len() {
        assert(line_refs(line, cat, i) =~= Seq::<LinkRef>::empty());
    } else {
        match match_at(line, i) {
            Some((os, oe, ne)) => {
                if !(i < ne && ne <= line.len()) {
                    assert(line_refs(line, cat, i) =~= Seq::<LinkRef>::empty());
                }
                if i < ne && ne <= line.len() {
                    lemma_line_refs_props(line, cat, ne);
                    assert forall|x: LinkRef| #[trigger] line_refs(line, cat, i).contains(
                        x,
                    ) implies x.category == cat && accept(x.owner, x.name) by {
                        let s = line_refs(line, cat, i);
                        let k = choose|k: int| 0 <= k < s.len() && s[k] == x;
                        let owner = line.subrange(os, oe);
                        let name = line.subrange(oe + 1, ne);
                        let head: Seq<LinkRef> = if accept(owner, name) {
                            seq![(LinkRef { owner, name, category: cat })]
                        } else {
                            seq![]
                        };
                        if k >= head.len() {
                            assert(line_refs(line, cat, ne)[k - head.len()] == x);
                            assert(line_refs(line, cat, ne).contains(x));
                        }
                    }
                }
            },
            None => {
                lemma_line_refs_props(line, cat, i + 1);
                assert(line_refs(line, cat, i) == line_refs(line, cat, i + 1));
            },
        }
    }
}

/// Every reference of a document carries some category and passes the
/// rejection filter; under a heading-free document that category is the one
/// the scan started with.
proof fn lemma_doc_refs_props(lines: Seq<Seq<char>>, cat: Seq<char>)
    ensures
        forall|x: LinkRef| #[trigger] doc_refs(lines, cat).contains(x) ==> accept(x.owner, x.name),
        (forall|t: int| 0 <= t < lines.len() ==> (#[trigger] heading_of(lines[t])) is None)
            ==> (forall|x: LinkRef|
            #[trigger] doc_refs(lines, cat).contains(x) ==> x.category == cat),
    decreases lines.len(),
{
    if lines.len() == 0 {
    } else {
        let c2 = new_cat(lines[0], cat);
        lemma_line_refs_props(lines[0], c2, 0);
        lemma_doc_refs_props(lines.drop_first(), c2);
        assert forall|x: LinkRef| #[trigger] doc_refs(lines, cat).contains(x) implies accept(
            x.owner,
            x.name,
        ) by {
            let s = doc_refs(lines, cat);
            let head = line_refs(lines[0], c2, 0);
            let k = choose|k: int| 0 <= k < s.len() && s[k] == x;
            if k < head.len() {
                assert(head[k] == x);
                assert(head.contains(x));
            } else {
                assert(doc_refs(lines.drop_first(), c2)[k - head.len()] == x);
                assert(doc_refs(lines.drop_first(), c2).contains(x));
            }
        }
        if forall|t: int| 0 <= t < lines.len() ==> (#[trigger] heading_of(lines[t])) is None {
            assert(heading_of(lines[0]) is None);
            assert(c2 == cat);
            assert forall|t: int|
                0 <= t < lines.drop_first().len() implies (#[trigger] heading_of(
                lines.drop_first()[t],
            )) is None by {
                assert(lines.drop_first()[t] == lines[t + 1]);
            }
            assert forall|x: LinkRef| #[trigger] doc_refs(lines, cat).contains(x) implies x.category
                == cat by {
                let s = doc_refs(lines, cat);
                let head = line_refs(lines[0], cat, 0);
                let k = choose|k: int| 0 <= k < s.len() && s[k] == x;
                if k < head.len() {
                    assert(head[k] == x);
                    assert(head.contains(x));
                } else {
                    assert(doc_refs(lines.drop_first(), cat)[k - head.len()] == x);
                    assert(doc_refs(lines.drop_first(), cat).contains(x));
                }
            }
        }
    }
}

/// The category in force after a sequence of lines has been scanned.
pub open spec fn cat_after(lines: Seq<Seq<char>>, cat: Seq<char>) -> Seq<char>
    decreases lines.len(),
{
    if lines.len() == 0 {
        cat
    } else {
        cat_after(lines.drop_first(), new_cat(lines[0], cat))
    }
}

/// The candidate stream of a document splits at any line boundary: the lines
/// before it contribute first, and the lines after it are scanned under the
/// category the prefix left in force.
pub proof fn lemma_doc_refs_split(lines: Seq<Seq<char>>, cat: Seq<char>, m: int)
    requires
        0 <= m <= lines.len(),
    ensures
        doc_refs(lines, cat) == doc_refs(lines.take(m), cat) + doc_refs(
            lines.skip(m),
            cat_after(lines.take(m), cat),
        ),
    decreases m,
{
    if m == 0 {
        assert(lines.take(0) =~= Seq::<Seq<char>>::empty());
        assert(lines.skip(0) =~= lines);
        assert(doc_refs(lines.take(0), cat) + doc_refs(lines, cat) =~= doc_refs(lines, cat));
    } else {
        let c2 = new_cat(lines[0], cat);
        let d = lines.drop_first();
        lemma_doc_refs_split(d, c2, m - 1);
        assert(lines.take(m)[0] == lines[0]);
        assert(lines.take(m).drop_first() =~= d.take(m - 1));
        assert(lines.skip(m) =~= d.skip(m - 1));
        assert(cat_after(lines.take(m), cat) == cat_after(d.take(m - 1), c2));
        assert((line_refs(lines[0], c2, 0) + doc_refs(d.take(m - 1), c2)) + doc_refs(
            d.skip(m - 1),
            cat_after(d.take(m - 1), c2),
        ) =~= line_refs(lines[0], c2, 0) + (doc_refs(d.take(m - 1), c2) + doc_refs(
            d.skip(m - 1),
            cat_after(d.take(m - 1), c2),
        )));
        assert(doc_refs(lines.take(m), cat) == line_refs(lines[0], c2, 0) + doc_refs(
            d.take(m - 1),
            c2,
        ));
    }
}

/// The extractor never keeps two references to the same repository: distinct
/// positions of its output always name distinct `(owner, name)` pairs.
pub proof fn lemma_extract_no_duplicates(doc: Seq<char>)
    ensures
        forall|i: int, j: int|
            0 <= i < j < extract_model(doc).len() ==> key_of(#[trigger] extract_model(doc)[i])
                != key_of(#[trigger] extract_model(doc)[j]),
{
    lemma_dedup_rec_props(doc_refs(split_lines(doc), uncategorized()), Set::empty());
}

/// Deduplication keeps the first occurrence: a candidate whose key no earlier
/// candidate shares is retained in the output, together with the category it
/// was first seen under.
pub proof fn lemma_extract_keeps_first(doc: Seq<char>, i: int)
    requires
        0 <= i < doc_refs(split_lines(doc), uncategorized()).len(),
        forall|j: int|
            0 <= j < i ==> key_of(#[trigger] doc_refs(split_lines(doc), uncategorized())[j])
                != key_of(doc_refs(split_lines(doc), uncategorized())[i]),
    ensures
        extract_model(doc).contains(doc_refs(split_lines(doc), uncategorized())[i]),
{
    lemma_dedup_rec_keeps_first(
        doc_refs(split_lines(doc), uncategorized()),
        Set::empty(),
        i,
    );
}

/// Rejection: an extracted reference never has the sponsors pseudo-account as
/// its owner, and its name never holds `'?'` or `'&'`.
pub proof fn lemma_extract_rejects(doc: Seq<char>, x: LinkRef)
    requires
        extract_model(doc).contains(x),
    ensures
        x.owner != "sponsors"@,
        !has_char(x.name, '?'),
        !has_char(x.name, '&'),
{
    lemma_dedup_rec_props(doc_refs(split_lines(doc), uncategorized()), Set::empty());
    lemma_doc_refs_props(split_lines(doc), uncategorized());
    assert(doc_refs(split_lines(doc), uncategorized()).contains(x));
}

/// Heading scoping, first half: as long as no heading has been seen, every
/// link is categorized "Uncategorized". The references contributed by a
/// heading-free prefix of the document (a prefix of the candidate stream, by
/// `lemma_doc_refs_split`) all carry the default category.
pub proof fn lemma_pre_heading_uncategorized(doc: Seq<char>, m: int)
    requires
        0 <= m <= split_lines(doc).len(),
        forall|t: int| 0 <= t < m ==> (#[trigger] heading_of(split_lines(doc)[t])) is None,
    ensures
        forall|x: LinkRef|
            #[trigger] doc_refs(split_lines(doc).take(m), uncategorized()).contains(x)
                ==> x.category == uncategorized(),
{
    let pre = split_lines(doc).take(m);
    assert forall|t: int| 0 <= t < pre.len() implies (#[trigger] heading_of(pre[t])) is None by {
        assert(pre[t] == split_lines(doc)[t]);
    }
    lemma_doc_refs_props(pre, uncategorized());
}

/// Heading scoping on the whole output: in a document without a single
/// level-2/3 heading, every extracted reference is "Uncategorized".
pub proof fn lemma_extract_uncategorized_without_headings(doc: Seq<char>, x: LinkRef)
    requires
        forall|t: int|
            0 <= t < split_lines(doc).len() ==> (#[trigger] heading_of(split_lines(doc)[t]))
                is None,
        extract_model(doc).contains(x),
    ensures
        x.category == uncategorized(),
{
    lemma_dedup_rec_props(doc_refs(split_lines(doc), uncategorized()), Set::empty());
    lemma_doc_refs_props(split_lines(doc), uncategorized());
    assert(doc_refs(split_lines(doc), uncategorized()).contains(x));
}

/// Heading scoping, second half: a link on the same line as a heading is
/// categorized under that very heading, which takes effect for its own line
/// already.
pub proof fn lemma_same_line_heading(doc: Seq<char>, k: int)
    requires
        0 <= k < split_lines(doc).len(),
        heading_of(split_lines(doc)[k]) is Some,
    ensures
        doc_refs(split_lines(doc), uncategorized()) == doc_refs(
            split_lines(doc).take(k),
            uncategorized(),
        ) + line_refs(split_lines(doc)[k], heading_of(split_lines(doc)[k])->0, 0) + doc_refs(
            split_lines(doc).skip(k + 1),
            heading_of(split_lines(doc)[k])->0,
        ),
        forall|x: LinkRef|
            #[trigger] line_refs(split_lines(doc)[k], heading_of(split_lines(doc)[k])->0, 0)
                .contains(x) ==> x.category == heading_of(split_lines(doc)[k])->0,
{
    let lines = split_lines(doc);
    let t = heading_of(lines[k])->0;
    lemma_doc_refs_split(lines, uncategorized(), k);
    let ck = cat_after(lines.take(k), uncategorized());
    assert(lines.skip(k)[0] == lines[k]);
    assert(new_cat(lines[k], ck) == t);
    assert(lines.skip(k).drop_first() =~= lines.skip(k + 1));
    assert(doc_refs(lines.skip(k), ck) == line_refs(lines[k], t, 0) + doc_refs(
        lines.skip(k + 1),
        t,
    ));
    assert((doc_refs(lines.take(k), uncategorized()) + line_refs(lines[k], t, 0)) + doc_refs(
        lines.skip(k + 1),
        t,
    ) =~= doc_refs(lines.take(k), uncategorized()) + (line_refs(lines[k], t, 0) + doc_refs(
        lines.skip(k + 1),
        t,
    )));
    lemma_line_refs_props(lines[k], t, 0);
}

} // verus!
