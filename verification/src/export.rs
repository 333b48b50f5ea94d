//! The export renderer's pure core: the CSV text for an enriched record set
//! with its category mapping, and the format selector. Field order is fixed;
//! every field is quoted; a missing optional field renders as the empty
//! string, never as a placeholder word. Writing the rendered text to disk is
//! the caller's business.

use vstd::prelude::*;
use vstd::string::*;

use crate::index::StringIndex;
use crate::models::{LicenseView, Repository, RepositoryView};
use crate::text::{dec_str, str_eq, u32_to_string};

verus! {

/// The selectable export formats.
#[derive(Debug, Clone, Copy, PartialEq, Eq, Structural)]
pub enum ExportFormat {
    Json,
    Csv,
}

/// Recognizes a format selector: exactly `"json"` and `"csv"` are supported.
pub fn parse_export_format(format: &str) -> (r: Option<ExportFormat>)
    ensures
        (match r {
            Some(f) => (f == ExportFormat::Json <==> format@ == "json"@) && (f == ExportFormat::Csv
                <==> format@ == "csv"@),
            None => format@ != "json"@ && format@ != "csv"@,
        }),
{
    if str_eq(format, "json") {
        proof {
            reveal_strlit("json");
            reveal_strlit("csv");
            assert("json"@.len() != "csv"@.len());
        }
        Some(ExportFormat::Json)
    } else if str_eq(format, "csv") {
        proof {
            reveal_strlit("json");
            reveal_strlit("csv");
            assert("json"@.len() != "csv"@.len());
        }
        Some(ExportFormat::Csv)
    } else {
        None
    }
}

/// A field wrapped in double quotes, as every text field of a CSV row is.
pub open spec fn quoted(s: Seq<char>) -> Seq<char> {
    seq!['"'] + s + seq!['"']
}

/// An optional field, rendered empty when absent.
pub open spec fn opt_or_empty(o: Option<Seq<char>>) -> Seq<char> {
    match o {
        Some(s) => s,
        None => Seq::empty(),
    }
}

/// The license column: the license name, or empty without one.
pub open spec fn license_name(o: Option<LicenseView>) -> Seq<char> {
    match o {
        Some(l) => l.name,
        None => Seq::empty(),
    }
}

/// The category column of a record: the category bound to its full name, or
/// empty when the mapping lacks it.
pub open spec fn category_for(
    cats: Map<Seq<char>, Seq<char>>,
    full_name: Seq<char>,
) -> Seq<char> {
    if cats.contains_key(full_name) {
        cats[full_name]
    } else {
        Seq::empty()
    }
}

/// A quoted cell with its trailing comma.
pub open spec fn cell(s: Seq<char>) -> Seq<char> {
    quoted(s) + seq![',']
}

/// One CSV row: Name, Full Name, Description, Category, Stars, Forks,
/// Language, License, Updated At, Added to List, URL. Every field is quoted,
/// the star and fork counts rendered in decimal.
pub open spec fn csv_row(r: RepositoryView, cat: Seq<char>) -> Seq<char> {
    cell(r.name) + cell(r.full_name) + cell(opt_or_empty(r.description)) + cell(cat) + cell(
        dec_str(r.stargazers_count as nat),
    ) + cell(dec_str(r.forks_count as nat)) + cell(opt_or_empty(r.language)) + cell(
        license_name(r.license),
    ) + cell(r.updated_at) + cell(opt_or_empty(r.added_to_list_at)) + quoted(r.html_url)
        + seq!['\n']
}

/// The rows of a record sequence, in order.
pub open spec fn csv_rows(
    repos: Seq<RepositoryView>,
    cats: Map<Seq<char>, Seq<char>>,
) -> Seq<char>
    decreases repos.len(),
{
    if repos.len() == 0 {
        Seq::empty()
    } else {
        csv_row(repos[0], category_for(cats, repos[0].full_name)) + csv_rows(
            repos.drop_first(),
            cats,
        )
    }
}

/// The header line preceding the rows.
pub open spec fn csv_header() -> Seq<char> {
    "Name,Full Name,Description,Category,Stars,Forks,Language,License,Updated At,Added to List,URL\n"@
}

/// The complete CSV text for a record set and its category mapping.
pub open spec fn csv_model(repos: Seq<RepositoryView>, cats: Map<Seq<char>, Seq<char>>) -> Seq<
    char,
> {
    csv_header() + csv_rows(repos, cats)
}

/// Appends a quoted field.
fn push_quoted(out: &mut String, s: &str)
    ensures
        final(out)@ == old(out)@ + quoted(s@),
{
    out.append("\"");
    out.append(s);
    out.append("\"");
    proof {
        reveal_strlit("\"");
        assert("\""@ =~= seq!['"']);
        assert(out@ =~= old(out)@ + quoted(s@));
    }
}

/// Appends a quoted cell with its trailing comma.
fn push_cell(out: &mut String, s: &str)
    ensures
        final(out)@ == old(out)@ + cell(s@),
{
    push_quoted(out, s);
    out.append(",");
    proof {
        reveal_strlit(",");
        assert(","@ =~= seq![',']);
        assert(out@ =~= old(out)@ + cell(s@));
    }
}

/// Appends an optional quoted cell, empty when absent.
fn push_opt_cell(out: &mut String, s: &Option<String>)
    ensures
        final(out)@ == old(out)@ + cell(opt_or_empty(crate::models::opt_str_view(*s))),
{
    proof {
        reveal_strlit("");
        assert(""@ =~= Seq::<char>::empty());
    }
    match s {
        Some(v) => push_cell(out, v.as_str()),
        None => push_cell(out, ""),
    }
}

/// Appends a quoted numeric cell with its trailing comma.
fn push_num_cell(out: &mut String, n: u32)
    ensures
        final(out)@ == old(out)@ + cell(dec_str(n as nat)),
{
    let d = u32_to_string(n);
    push_cell(out, d.as_str());
}

/// Appends one CSV row for a record under its category.
#[verifier::rlimit(80)]
fn push_row(out: &mut String, r: &Repository, cat: Option<String>)
    ensures
        final(out)@ == old(out)@ + csv_row(r@, opt_or_empty(crate::models::opt_str_view(cat))),
{
    push_cell(out, r.name.as_str());
    push_cell(out, r.full_name.as_str());
    push_opt_cell(out, &r.description);
    push_opt_cell(out, &cat);
    push_num_cell(out, r.stargazers_count);
    push_num_cell(out, r.forks_count);
    push_opt_cell(out, &r.language);
    proof {
        reveal_strlit("");
        assert(""@ =~= Seq::<char>::empty());
    }
    match &r.license {
        Some(l) => push_cell(out, l.name.as_str()),
        None => push_cell(out, ""),
    }
    push_cell(out, r.updated_at.as_str());
    push_opt_cell(out, &r.added_to_list_at);
    push_quoted(out, r.html_url.as_str());
    out.append("\n");
    proof {
        reveal_strlit("\n");
        assert("\n"@ =~= seq!['\n']);
        assert(out@ =~= old(out)@ + csv_row(
            r@,
            opt_or_empty(crate::models::opt_str_view(cat)),
        ));
    }
}

/// Renders the enriched record set as CSV text: the fixed header, then one
/// row per record in order, categories looked up by full name, missing
/// optional fields rendered empty.
pub fn render_csv(repositories: &Vec<Repository>, categories: &StringIndex) -> (r: String)
    ensures
        r@ == csv_model(crate::enrich::repos_view(repositories@), categories@),
{
    let ghost rv = crate::enrich::repos_view(repositories@);
    let mut out: String =
        "Name,Full Name,Description,Category,Stars,Forks,Language,License,Updated At,Added to List,URL\n".to_owned();
    let mut i: usize = 0;
    proof {
        assert(rv.skip(0) =~= rv);
        assert(out@ + csv_rows(rv, categories@) =~= csv_model(rv, categories@));
    }
    while i < repositories.len()
        invariant
            i <= repositories@.len(),
            rv == crate::enrich::repos_view(repositories@),
            rv.len() == repositories@.len(),
            out@ + csv_rows(rv.skip(i as int), categories@) == csv_model(rv, categories@),
        decreases repositories@.len() - i,
    {
        let r = &repositories[i];
        let cat = categories.get_cloned(r.full_name.as_str());
        proof {
            assert(rv.skip(i as int)[0] == repositories@[i as int]@);
            assert(rv.skip(i as int).drop_first() =~= rv.skip(i as int + 1));
            assert(opt_or_empty(crate::models::opt_str_view(cat)) == category_for(
                categories@,
                repositories@[i as int]@.full_name,
            ));
        }
        let ghost before = out@;
        push_row(&mut out, r, cat);
        proof {
            assert((before + csv_row(
                rv[i as int],
                category_for(categories@, rv[i as int].full_name),
            )) + csv_rows(rv.skip(i as int + 1), categories@) =~= before + (csv_row(
                rv[i as int],
                category_for(categories@, rv[i as int].full_name),
            ) + csv_rows(rv.skip(i as int + 1), categories@)));
        }
        i = i + 1;
    }
    proof {
        assert(rv.skip(rv.len() as int) =~= Seq::<RepositoryView>::empty());
        assert(out@ + Seq::<char>::empty() =~= out@);
    }
    out
}

} // verus!
