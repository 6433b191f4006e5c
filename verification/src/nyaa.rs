//! The nyaa-style source adapter: builds the search URL for one page of
//! results and extracts canonical records from a fetched page body.
//! Rows are table rows; `nyaa_rows_of` names the raw field texts the
//! page's DOM yields for each row, and the extraction contract pins the
//! output to exactly one record per row whose title, magnet link, size
//! and seeder cell all extract — a row missing any of them is skipped
//! whole, never defaulted.

use scraper::{Html, Selector};
use vstd::prelude::*;

use crate::magnet::{clean_magnet, cleaned_record, tracker_cut};
use crate::text::{contains_seq, dec_digits, replace_spaces, replace_spaces_seq, u64_to_string};
use crate::types::{opt_view, record_view, records_view, Torrent};

verus! {

/// The search URL for one page of results; spaces in the query are
/// encoded as `+`, the site's expected query format.
pub open spec fn page_url(query: Seq<char>, page: int) -> Seq<char> {
    "https://nyaa.si/?f=0&c=0_0&q="@ + replace_spaces_seq(query, "+"@)
        + "&s=seeders&o=desc&p="@ + dec_digits(page)
}

/// Builds the URL the fetch task for (query, page) requests.
pub fn build_url(query: &str, page: u32) -> (r: String)
    ensures
        r@ == page_url(query@, page as int),
{
    let mut r = ("https://nyaa.si/?f=0&c=0_0&q=").to_owned();
    let q = replace_spaces(query, "+");
    r.append(q.as_str());
    r.append("&s=seeders&o=desc&p=");
    let p = u64_to_string(page as u64);
    r.append(p.as_str());
    r
}

/// The raw field texts one result row offers, exactly as the DOM gives
/// them: the second name-cell link's title attribute (absent when the
/// link or the attribute is missing), every centre-cell link's target,
/// and every centre cell's text.
pub struct RowRaw {
    pub title: Option<String>,
    pub hrefs: Vec<Option<String>>,
    pub cells: Vec<String>,
}

/// The raw texts of one row, as plain values.
pub open spec fn raw_view(r: RowRaw) -> (Option<Seq<char>>, Seq<Option<Seq<char>>>, Seq<Seq<char>>) {
    (
        opt_view(r.title),
        r.hrefs@.map_values(|h: Option<String>| opt_view(h)),
        r.cells@.map_values(|c: String| c@),
    )
}

/// The raw row data of every "tbody tr" row of a page body, in document
/// order: for each row, the title attribute of the second
/// "td[colspan] a" match, the href of every "td.text-center a" match,
/// and the text of every "td.text-center" match. HTML parsing and CSS
/// selection are deterministic in the body, so this is a function of
/// the body alone.
pub uninterp spec fn nyaa_rows_of(body: Seq<char>) -> Seq<
    (Option<Seq<char>>, Seq<Option<Seq<char>>>, Seq<Seq<char>>),
>;

/// Relies on scraper's Html::parse_document, Html::select,
/// ElementRef::select, ElementRef::attr and ElementRef::inner_html: the
/// raw field texts of every result row, which `nyaa_rows_of` names.
#[verifier::external_body]
fn raw_rows(body: &str) -> (r: Vec<RowRaw>)
    ensures
        r@.map_values(|x: RowRaw| raw_view(x)) == nyaa_rows_of(body@),
{
    let doc = Html::parse_document(body);
    let sel = |s| Selector::parse(s).unwrap();
    doc.select(&sel("tbody tr")).map(|row| RowRaw {
        title: row.select(&sel("td[colspan] a")).nth(1)
            .and_then(|e| e.attr("title")).map(String::from),
        hrefs: row.select(&sel("td.text-center a"))
            .map(|e| e.attr("href").map(String::from)).collect(),
        cells: row.select(&sel("td.text-center")).map(|e| e.inner_html()).collect(),
    }).collect()
}

/// The first link target from position `k` on that mentions the magnet
/// scheme, cleaned of tracker parameters; targets without the scheme
/// and links without a target are passed over.
pub open spec fn first_magnet(hrefs: Seq<Option<Seq<char>>>, k: int) -> Option<Seq<char>>
    decreases hrefs.len() - k,
{
    if k < 0 || k >= hrefs.len() {
        None
    } else {
        match hrefs[k] {
            Some(h) => if contains_seq(tracker_cut(h), "magnet"@) {
                Some(tracker_cut(h))
            } else {
                first_magnet(hrefs, k + 1)
            },
            None => first_magnet(hrefs, k + 1),
        }
    }
}

/// The record one raw row yields: none unless the title is present and
/// non-empty, some link target mentions the magnet scheme, and the
/// size and seeder cells (the second and fourth centre cells) exist.
pub open spec fn row_record(raw: (Option<Seq<char>>, Seq<Option<Seq<char>>>, Seq<Seq<char>>)) -> Option<
    (Seq<char>, Seq<char>, Seq<char>, Seq<char>),
> {
    match raw.0 {
        Some(title) => if title.len() == 0 {
            None
        } else {
            match first_magnet(raw.1, 0) {
                Some(magnet) => if raw.2.len() >= 4 {
                    Some((title, magnet, raw.2[1], raw.2[3]))
                } else {
                    None
                },
                None => None,
            }
        },
        None => None,
    }
}

/// The records of the first `n` raw rows, in row order.
pub open spec fn records_upto(
    rows: Seq<(Option<Seq<char>>, Seq<Option<Seq<char>>>, Seq<Seq<char>>)>,
    n: int,
) -> Seq<(Seq<char>, Seq<char>, Seq<char>, Seq<char>)>
    decreases n,
{
    if n <= 0 {
        Seq::empty()
    } else {
        records_upto(rows, n - 1) + (match row_record(rows[n - 1]) {
            Some(rv) => seq![rv],
            None => Seq::empty(),
        })
    }
}

/// The canonical records a page body stands for: one per fully
/// extractable row, in document order.
pub open spec fn records_of(body: Seq<char>) -> Seq<(Seq<char>, Seq<char>, Seq<char>, Seq<char>)> {
    records_upto(nyaa_rows_of(body), nyaa_rows_of(body).len() as int)
}

/// Picks the row's magnet link: the first link target mentioning the
/// magnet scheme, cleaned of tracker parameters.
#[verifier::loop_isolation(false)]
fn find_first_magnet(hrefs: &Vec<Option<String>>) -> (r: Option<String>)
    ensures
        ({
            let hv = hrefs@.map_values(|h: Option<String>| opt_view(h));
            match r {
                Some(m) => first_magnet(hv, 0) == Some(m@) && contains_seq(m@, "magnet"@)
                    && !contains_seq(m@, "&tr="@),
                None => first_magnet(hv, 0) is None,
            }
        }),
{
    let ghost hv = hrefs@.map_values(|h: Option<String>| opt_view(h));
    let mut k: usize = 0;
    while k < hrefs.len()
        invariant
            k <= hrefs@.len(),
            first_magnet(hv, 0) == first_magnet(hv, k as int),
        decreases hrefs@.len() - k,
    {
        match &hrefs[k] {
            Some(h) => {
                proof {
                    assert(hv[k as int] == Some(h@));
                }
                match clean_magnet(h.as_str()) {
                    Some(m) => {
                        proof {
                            assert(first_magnet(hv, k as int) == Some(tracker_cut(h@)));
                        }
                        return Some(m);
                    },
                    None => {
                        proof {
                            assert(first_magnet(hv, k as int) == first_magnet(hv, k + 1));
                        }
                    },
                }
            },
            None => {
                proof {
                    assert(hv[k as int] is None);
                    assert(first_magnet(hv, k as int) == first_magnet(hv, k + 1));
                }
            },
        }
        k = k + 1;
    }
    None
}

/// Extracts every complete result row of a fetched results page:
/// exactly the records the body's rows stand for, in document order.
/// Each record has a non-empty title and a tracker-free magnet link;
/// a row that fails any field extraction contributes nothing and does
/// not disturb its siblings.
#[verifier::loop_isolation(false)]
pub fn extract_results(body: &str) -> (r: Vec<Torrent>)
    ensures
        records_view(r@) == records_of(body@),
        forall|i: int| 0 <= i < r@.len() ==> cleaned_record(#[trigger] r@[i]),
{
    let ghost rows = nyaa_rows_of(body@);
    let mut rem = raw_rows(body);
    let ghost orig = rem@;
    let mut results: Vec<Torrent> = Vec::new();
    proof {
        assert(records_view(results@) =~= records_upto(rows, 0));
    }
    while rem.len() > 0
        invariant
            rem@.len() <= orig.len(),
            rem@ == orig.subrange(orig.len() - rem@.len(), orig.len() as int),
            orig.map_values(|x: RowRaw| raw_view(x)) == rows,
            records_view(results@) == records_upto(rows, orig.len() - rem@.len()),
            forall|i: int| 0 <= i < results@.len() ==> cleaned_record(#[trigger] results@[i]),
        decreases rem@.len(),
    {
        let ghost idx = orig.len() - rem@.len();
        let ghost old_rem = rem@;
        let ghost old_results = results@;
        let raw = rem.remove(0);
        let ghost graw = raw;
        proof {
            assert(raw == orig[idx as int]);
            assert(rem@ =~= orig.subrange(idx as int + 1, orig.len() as int));
            assert(rows[idx as int] == raw_view(graw));
            assert(records_upto(rows, idx + 1) == records_upto(rows, idx as int) + (
            match row_record(rows[idx as int]) {
                Some(rv) => seq![rv],
                None => Seq::<(Seq<char>, Seq<char>, Seq<char>, Seq<char>)>::empty(),
            }));
        }
        match extract_row(raw) {
            Some(t) => {
                proof {
                    assert(row_record(rows[idx as int]) == Some(record_view(t)));
                }
                results.push(t);
                proof {
                    assert(records_view(results@) =~= records_view(old_results).push(
                        record_view(results@.last()),
                    ));
                    assert(records_view(results@) =~= records_upto(rows, idx + 1));
                }
            },
            None => {
                proof {
                    assert(row_record(rows[idx as int]) is None);
                    assert(records_view(results@) + Seq::<
                        (Seq<char>, Seq<char>, Seq<char>, Seq<char>),
                    >::empty() =~= records_view(results@));
                    assert(records_view(results@) == records_upto(rows, idx + 1));
                }
            },
        }
    }
    proof {
        assert(orig.len() - rem@.len() == rows.len());
    }
    results
}

/// Builds the record one raw row yields, if the row is complete.
fn extract_row(raw: RowRaw) -> (r: Option<Torrent>)
    ensures
        match r {
            Some(t) => row_record(raw_view(raw)) == Some(record_view(t)) && cleaned_record(t),
            None => row_record(raw_view(raw)) is None,
        },
{
    let ghost rv = raw_view(raw);
    let title = match raw.title {
        Some(t) => {
            if t.unicode_len() == 0 {
                return None;
            } else {
                t
            }
        },
        None => {
            return None;
        },
    };
    let magnet = match find_first_magnet(&raw.hrefs) {
        Some(m) => m,
        None => {
            return None;
        },
    };
    if raw.cells.len() < 4 {
        return None;
    }
    let size = raw.cells[1].clone();
    let seeders = raw.cells[3].clone();
    proof {
        assert(rv.2[1] == size@);
        assert(rv.2[3] == seeders@);
    }
    Some(Torrent { title, magnet, size, seeders })
}

} // verus!
