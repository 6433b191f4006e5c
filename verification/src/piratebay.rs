//! The piratebay-style source adapter: builds the search URL for one
//! page of results and extracts canonical records from a fetched page
//! body. The size is not a cell of its own here; it is cut out of the
//! row's description text, which reads like "Uploaded 01-02 2003, Size
//! 700&nbsp;MiB, ULed by x". `pb_rows_of` names the raw field texts the
//! page's DOM yields for each row, and the extraction contract pins the
//! output to exactly one record per fully extractable row.

use scraper::{Html, Selector};
use vstd::prelude::*;

use crate::magnet::{clean_magnet, cleaned_record, tracker_cut};
use crate::text::{
    contains_seq, dec_digits, find_sub, lemma_split_point, replace_all, replace_all_seq,
    replace_spaces, replace_spaces_seq, split_point, u64_to_string,
};
use crate::types::{opt_view, record_view, records_view, Torrent};

verus! {

/// The search URL for one page of results; spaces in the query are
/// encoded as `%20`, the site's expected query format.
pub open spec fn page_url(query: Seq<char>, page: int) -> Seq<char> {
    "https://www.tpb.party/search/"@ + replace_spaces_seq(query, "%20"@) + "/"@ + dec_digits(page)
        + "/99/0"@
}

/// Builds the URL the fetch task for (query, page) requests.
pub fn build_url(query: &str, page: u32) -> (r: String)
    ensures
        r@ == page_url(query@, page as int),
{
    let mut r = ("https://www.tpb.party/search/").to_owned();
    let q = replace_spaces(query, "%20");
    r.append(q.as_str());
    r.append("/");
    let p = u64_to_string(page as u64);
    r.append(p.as_str());
    r.append("/99/0");
    r
}

/// The second comma-separated field of a description text, if there is
/// one: the text between the first ", " and the next.
pub open spec fn second_field(desc: Seq<char>) -> Option<Seq<char>> {
    let sep = ", "@;
    let sp = split_point(desc, sep);
    if sp == desc.len() {
        None
    } else {
        let rest = desc.subrange(sp + sep.len(), desc.len() as int);
        Some(rest.subrange(0, split_point(rest, sep)))
    }
}

/// The size text a description stands for: its second field, with the
/// "Size " label removed and non-breaking spaces made plain.
pub open spec fn size_from_desc(desc: Seq<char>) -> Option<Seq<char>> {
    match second_field(desc) {
        Some(f) => Some(replace_all_seq(replace_all_seq(f, "Size "@, ""@), "&nbsp;"@, " "@)),
        None => None,
    }
}

/// Cuts the size text out of a row description: the second
/// comma-separated field, unlabelled and with plain spaces. `None` when
/// the description has no second field.
pub fn clean_size_field(desc: &str) -> (r: Option<String>)
    ensures
        (r is Some) == (size_from_desc(desc@) is Some),
        r matches Some(s) ==> Some(s@) == size_from_desc(desc@),
{
    proof {
        reveal_strlit(", ");
        lemma_split_point(desc@, ", "@);
    }
    let n: usize = desc.unicode_len();
    let sp: usize = match find_sub(desc, ", ") {
        Some(i) => i,
        None => {
            return None;
        },
    };
    proof {
        assert(sp as int == split_point(desc@, ", "@));
    }
    let rest = desc.substring_char(sp + 2, n);
    proof {
        assert(rest@ == desc@.subrange(sp + 2, n as int));
        lemma_split_point(rest@, ", "@);
    }
    let rn: usize = rest.unicode_len();
    let e: usize = match find_sub(rest, ", ") {
        Some(i) => i,
        None => rn,
    };
    proof {
        assert(e as int == split_point(rest@, ", "@));
    }
    let field = rest.substring_char(0, e);
    proof {
        reveal_strlit("Size ");
        reveal_strlit("&nbsp;");
    }
    let s1 = replace_all(field, "Size ", "");
    let s2 = replace_all(s1.as_str(), "&nbsp;", " ");
    Some(s2)
}

/// The raw field texts one result row offers, exactly as the DOM gives
/// them: the detail link's text, the target of the link around the
/// magnet icon, the description text, and the third cell's text.
pub struct RowRaw {
    pub title: Option<String>,
    pub magnet_href: Option<String>,
    pub desc: Option<String>,
    pub seeders: Option<String>,
}

/// The raw texts of one row, as plain values.
pub open spec fn raw_view(r: RowRaw) -> (
    Option<Seq<char>>,
    Option<Seq<char>>,
    Option<Seq<char>>,
    Option<Seq<char>>,
) {
    (opt_view(r.title), opt_view(r.magnet_href), opt_view(r.desc), opt_view(r.seeders))
}

/// The raw row data of every "tbody tr" row of a page body, in document
/// order: for each row, the text of the first ".detLink" match, the
/// href of the parent element of the first "[alt='Magnet link']" match,
/// the text of the first ".detDesc" match, and the text of the third
/// "td" match. HTML parsing and CSS selection are deterministic in the
/// body, so this is a function of the body alone.
pub uninterp spec fn pb_rows_of(body: Seq<char>) -> Seq<
    (Option<Seq<char>>, Option<Seq<char>>, Option<Seq<char>>, Option<Seq<char>>),
>;

/// Relies on scraper's Html::parse_document, Html::select,
/// ElementRef::select, ElementRef::inner_html, ego_tree's
/// NodeRef::parent, and scraper's Node::as_element and Element::attr:
/// the raw field texts of every result row, which `pb_rows_of` names.
#[verifier::external_body]
fn raw_rows(body: &str) -> (r: Vec<RowRaw>)
    ensures
        r@.map_values(|x: RowRaw| raw_view(x)) == pb_rows_of(body@),
{
    let doc = Html::parse_document(body);
    let sel = |s| Selector::parse(s).unwrap();
    doc.select(&sel("tbody tr")).map(|row| RowRaw {
        title: row.select(&sel(".detLink")).next().map(|e| e.inner_html()),
        magnet_href: row.select(&sel("[alt='Magnet link']")).next()
            .and_then(|e| e.parent()).and_then(|p| p.value().as_element())
            .and_then(|e| e.attr("href")).map(String::from),
        desc: row.select(&sel(".detDesc")).next().map(|e| e.inner_html()),
        seeders: row.select(&sel("td")).nth(2).map(|e| e.inner_html()),
    }).collect()
}

/// The record one raw row yields: none unless the title is present and
/// non-empty, the magnet-icon link's target mentions the magnet scheme,
/// the description has a size field, and the seeder cell exists.
pub open spec fn row_record(
    raw: (Option<Seq<char>>, Option<Seq<char>>, Option<Seq<char>>, Option<Seq<char>>),
) -> Option<(Seq<char>, Seq<char>, Seq<char>, Seq<char>)> {
    match raw.0 {
        Some(title) => if title.len() == 0 {
            None
        } else {
            match raw.1 {
                Some(h) => if contains_seq(tracker_cut(h), "magnet"@) {
                    match raw.2 {
                        Some(d) => match size_from_desc(d) {
                            Some(size) => match raw.3 {
                                Some(seeders) => Some((title, tracker_cut(h), size, seeders)),
                                None => None,
                            },
                            None => None,
                        },
                        None => None,
                    }
                } else {
                    None
                },
                None => None,
            }
        },
        None => None,
    }
}

/// The records of the first `n` raw rows, in row order.
pub open spec fn records_upto(
    rows: Seq<(Option<Seq<char>>, Option<Seq<char>>, Option<Seq<char>>, Option<Seq<char>>)>,
    n: int,
) -> Seq<(Seq<char>, Seq<char>, Seq<char>, Seq<char>)>
    decreases n,
{
    if n <= 0 {
        Seq::empty()
    } else {
        records_upto(rows, n - 1) + (match row_record(rows[n - 1]) {
            Some(rv) => seq![rv],
            None => Seq::empty(),
        })
    }
}

/// The canonical records a page body stands for: one per fully
/// extractable row, in document order.
pub open spec fn records_of(body: Seq<char>) -> Seq<(Seq<char>, Seq<char>, Seq<char>, Seq<char>)> {
    records_upto(pb_rows_of(body), pb_rows_of(body).len() as int)
}

/// Extracts every complete result row of a fetched results page:
/// exactly the records the body's rows stand for, in document order.
/// Each record has a non-empty title and a tracker-free magnet link;
/// a row that fails any field extraction contributes nothing and does
/// not disturb its siblings.
#[verifier::loop_isolation(false)]
pub fn extract_results(body: &str) -> (r: Vec<Torrent>)
    ensures
        records_view(r@) == records_of(body@),
        forall|i: int| 0 <= i < r@.len() ==> cleaned_record(#[trigger] r@[i]),
{
    let ghost rows = pb_rows_of(body@);
    let mut rem = raw_rows(body);
    let ghost orig = rem@;
    let mut results: Vec<Torrent> = Vec::new();
    proof {
        assert(records_view(results@) =~= records_upto(rows, 0));
    }
    while rem.len() > 0
        invariant
            rem@.len() <= orig.len(),
            rem@ == orig.subrange(orig.len() - rem@.len(), orig.len() as int),
            orig.map_values(|x: RowRaw| raw_view(x)) == rows,
            records_view(results@) == records_upto(rows, orig.len() - rem@.len()),
            forall|i: int| 0 <= i < results@.len() ==> cleaned_record(#[trigger] results@[i]),
        decreases rem@.len(),
    {
        let ghost idx = orig.len() - rem@.len();
        let ghost old_rem = rem@;
        let ghost old_results = results@;
        let raw = rem.remove(0);
        proof {
            assert(raw == orig[idx as int]);
            assert(rem@ =~= orig.subrange(idx as int + 1, orig.len() as int));
            assert(rows[idx as int] == raw_view(raw));
            assert(records_upto(rows, idx + 1) == records_upto(rows, idx as int) + (
            match row_record(rows[idx as int]) {
                Some(rv) => seq![rv],
                None => Seq::<(Seq<char>, Seq<char>, Seq<char>, Seq<char>)>::empty(),
            }));
        }
        match extract_row(raw) {
            Some(t) => {
                proof {
                    assert(row_record(rows[idx as int]) == Some(record_view(t)));
                }
                results.push(t);
                proof {
                    assert(records_view(results@) =~= records_view(old_results).push(
                        record_view(results@.last()),
                    ));
                    assert(records_view(results@) =~= records_upto(rows, idx + 1));
                }
            },
            None => {
                proof {
                    assert(row_record(rows[idx as int]) is None);
                    assert(records_view(results@) + Seq::<
                        (Seq<char>, Seq<char>, Seq<char>, Seq<char>),
                    >::empty() =~= records_view(results@));
                    assert(records_view(results@) == records_upto(rows, idx + 1));
                }
            },
        }
    }
    proof {
        assert(orig.len() - rem@.len() == rows.len());
    }
    results
}

/// Builds the record one raw row yields, if the row is complete.
fn extract_row(raw: RowRaw) -> (r: Option<Torrent>)
    ensures
        match r {
            Some(t) => row_record(raw_view(raw)) == Some(record_view(t)) && cleaned_record(t),
            None => row_record(raw_view(raw)) is None,
        },
{
    let ghost rv = raw_view(raw);
    let title = match raw.title {
        Some(t) => {
            if t.unicode_len() == 0 {
                return None;
            } else {
                t
            }
        },
        None => {
            return None;
        },
    };
    let magnet = match raw.magnet_href {
        Some(h) => {
            match clean_magnet(h.as_str()) {
                Some(m) => m,
                None => {
                    return None;
                },
            }
        },
        None => {
            return None;
        },
    };
    let size = match raw.desc {
        Some(d) => {
            match clean_size_field(d.as_str()) {
                Some(s) => s,
                None => {
                    return None;
                },
            }
        },
        None => {
            return None;
        },
    };
    let seeders = match raw.seeders {
        Some(s) => s,
        None => {
            return None;
        },
    };
    Some(Torrent { title, magnet, size, seeders })
}

} // verus!
