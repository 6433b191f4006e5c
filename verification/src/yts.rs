//! The yts-style source adapter. This site answers with a typed JSON
//! envelope instead of an HTML page, and its payload embeds no magnet
//! links: each movie carries torrent entries with a content hash, from
//! which a link is synthesized with fixed fallback trackers. The caller
//! decodes the envelope and hands the movies over as plain values; every
//! record built from them is pinned exactly by the contract.

use vstd::prelude::*;

use crate::magnet::{magnet_of, make_magnet};
use crate::text::{dec_digits, replace_spaces, replace_spaces_seq, u64_to_string};
use crate::types::{record_view, records_view, Torrent};

verus! {

/// One torrent entry of a movie, reduced to the fields a record needs.
pub struct YtsTorrentInfo {
    /// Content hash the magnet link is synthesized from.
    pub hash: String,
    /// Human-readable size, e.g. "1.2 GiB".
    pub size: String,
    /// Seeder count; the payload carries it as a number.
    pub seeds: usize,
}

/// One movie of the payload, reduced to the fields its records need.
pub struct YtsMovieInfo {
    /// Full display title.
    pub title_long: String,
    /// URL slug, used as the magnet link's display name.
    pub slug: String,
    /// The movie's torrent entries; each becomes one record.
    pub torrents: Vec<YtsTorrentInfo>,
}

/// The search URL for one page of results; spaces in the query are
/// encoded as `+`, the API's expected query format.
pub open spec fn page_url(query: Seq<char>, page: int) -> Seq<char> {
    "https://yts.mx/api/v2/list_movies.json?query_term="@ + replace_spaces_seq(query, "+"@)
        + "&page="@ + dec_digits(page)
}

/// Builds the URL the fetch task for (query, page) requests.
pub fn build_url(query: &str, page: u32) -> (r: String)
    ensures
        r@ == page_url(query@, page as int),
{
    let mut r = ("https://yts.mx/api/v2/list_movies.json?query_term=").to_owned();
    let q = replace_spaces(query, "+");
    r.append(q.as_str());
    r.append("&page=");
    let p = u64_to_string(page as u64);
    r.append(p.as_str());
    r
}

/// The records one movie contributes: one per torrent entry, sharing
/// the movie's title, with a synthesized magnet link and the seed count
/// rendered in decimal.
pub open spec fn movie_records(m: YtsMovieInfo) -> Seq<(Seq<char>, Seq<char>, Seq<char>, Seq<char>)> {
    m.torrents@.map_values(
        |t: YtsTorrentInfo|
            (m.title_long@, magnet_of(t.hash@, m.slug@), t.size@, dec_digits(t.seeds as int)),
    )
}

/// The records of a whole decoded page, movie by movie, in order.
pub open spec fn all_movie_records(ms: Seq<YtsMovieInfo>) -> Seq<
    (Seq<char>, Seq<char>, Seq<char>, Seq<char>),
>
    decreases ms.len(),
{
    if ms.len() == 0 {
        Seq::empty()
    } else {
        all_movie_records(ms.drop_last()) + movie_records(ms.last())
    }
}

/// Builds the canonical records of one decoded API page: exactly one
/// record per torrent entry of each movie, in payload order.
#[verifier::loop_isolation(false)]
#[verifier::rlimit(30)]
pub fn extract_results(movies: Vec<YtsMovieInfo>) -> (r: Vec<Torrent>)
    ensures
        records_view(r@) == all_movie_records(movies@),
{
    let ghost orig = movies@;
    let mut rem = movies;
    let mut results: Vec<Torrent> = Vec::new();
    proof {
        assert(orig.subrange(0, 0) =~= Seq::<YtsMovieInfo>::empty());
        assert(records_view(results@) =~= all_movie_records(orig.subrange(0, 0)));
        assert(orig.subrange(0, orig.len() as int) =~= orig);
    }
    while rem.len() > 0
        invariant
            rem@.len() <= orig.len(),
            rem@ == orig.subrange(orig.len() - rem@.len(), orig.len() as int),
            records_view(results@) == all_movie_records(
                orig.subrange(0, orig.len() - rem@.len()),
            ),
        decreases rem@.len(),
    {
        let ghost m_idx = orig.len() - rem@.len();
        let ghost old_rem = rem@;
        let m = rem.remove(0);
        proof {
            assert(m == orig[m_idx as int]);
            assert(rem@ =~= orig.subrange(m_idx as int + 1, orig.len() as int));
        }
        let ghost gm = m;
        let ghost base = records_view(results@);
        let title = m.title_long;
        let slug = m.slug;
        let mut ts = m.torrents;
        proof {
            assert(gm.torrents@.subrange(0, 0) =~= Seq::<YtsTorrentInfo>::empty());
            assert(movie_records(gm).subrange(0, 0) =~= Seq::<
                (Seq<char>, Seq<char>, Seq<char>, Seq<char>),
            >::empty());
            assert(base + movie_records(gm).subrange(0, 0) =~= base);
        }
        while ts.len() > 0
            invariant
                ts@.len() <= gm.torrents@.len(),
                ts@ == gm.torrents@.subrange(
                    gm.torrents@.len() - ts@.len(),
                    gm.torrents@.len() as int,
                ),
                title@ == gm.title_long@,
                slug@ == gm.slug@,
                records_view(results@) == base + movie_records(gm).subrange(
                    0,
                    gm.torrents@.len() - ts@.len(),
                ),
            decreases ts@.len(),
        {
            let ghost t_idx = gm.torrents@.len() - ts@.len();
            let ghost old_ts = ts@;
            let ghost old_results = results@;
            let t = ts.remove(0);
            proof {
                assert(t == gm.torrents@[t_idx as int]);
                assert(ts@ =~= gm.torrents@.subrange(
                    t_idx as int + 1,
                    gm.torrents@.len() as int,
                ));
            }
            let seeders = u64_to_string(t.seeds as u64);
            let magnet = make_magnet(t.hash, slug.clone());
            results.push(Torrent { title: title.clone(), magnet, size: t.size, seeders });
            proof {
                assert(movie_records(gm)[t_idx as int] == (
                    gm.title_long@,
                    magnet_of(gm.torrents@[t_idx as int].hash@, gm.slug@),
                    gm.torrents@[t_idx as int].size@,
                    dec_digits(gm.torrents@[t_idx as int].seeds as int),
                ));
                assert(records_view(results@) =~= records_view(old_results).push(
                    record_view(results@.last()),
                ));
                assert(movie_records(gm).subrange(0, t_idx + 1) =~= movie_records(gm).subrange(
                    0,
                    t_idx as int,
                ).push(movie_records(gm)[t_idx as int]));
                assert(records_view(results@) =~= base + movie_records(gm).subrange(
                    0,
                    t_idx + 1,
                ));
            }
        }
        proof {
            assert(movie_records(gm).subrange(0, gm.torrents@.len() as int) =~= movie_records(gm));
            assert(orig.subrange(0, m_idx + 1).drop_last() =~= orig.subrange(0, m_idx as int));
            assert(orig.subrange(0, m_idx + 1).last() == orig[m_idx as int]);
            assert(records_view(results@) == all_movie_records(orig.subrange(0, m_idx + 1)));
        }
    }
    results
}

} // verus!
