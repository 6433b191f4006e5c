use magnetfinder::magnet::{clean_magnet, make_magnet};
use magnetfinder::nyaa;
use magnetfinder::piratebay;
use magnetfinder::yts;
use magnetfinder::yts::{YtsMovieInfo, YtsTorrentInfo};

fn nyaa_row(title_attr: &str, href: &str, centre_cells: &str) -> String {
    format!(
        "<tr><td colspan=\"2\"><a href=\"#c\">c</a><a href=\"/view/1\" title=\"{}\">{}</a></td><td class=\"text-center\"><a href=\"{}\">m</a></td>{}</tr>",
        title_attr, title_attr, href, centre_cells
    )
}

const NYAA_CELLS: &str = "<td class=\"text-center\">700.5 MiB</td><td class=\"text-center\">2021-01-01</td><td class=\"text-center\">57</td>";

#[test]
fn nyaa_extracts_complete_rows() {
    let row = nyaa_row(
        "Test Episode 01",
        "magnet:?xt=urn:btih:abc&amp;dn=x&amp;tr=udp://t1&amp;tr=udp://t2",
        NYAA_CELLS,
    );
    let body = format!("<table><tbody>{}</tbody></table>", row);
    let results = nyaa::extract_results(&body);
    assert_eq!(results.len(), 1);
    assert_eq!(results[0].title, "Test Episode 01");
    assert_eq!(results[0].magnet, "magnet:?xt=urn:btih:abc&dn=x");
    assert_eq!(results[0].size, "700.5 MiB");
    assert_eq!(results[0].seeders, "57");
}

#[test]
fn nyaa_row_missing_size_is_skipped_alone() {
    let good = nyaa_row("Good One", "magnet:?xt=urn:btih:a", NYAA_CELLS);
    // Only the magnet cell is centre-aligned: no size cell, no seeders.
    let broken = nyaa_row("Broken One", "magnet:?xt=urn:btih:b", "");
    let good2 = nyaa_row("Good Two", "magnet:?xt=urn:btih:c", NYAA_CELLS);
    let body = format!("<table><tbody>{}{}{}</tbody></table>", good, broken, good2);
    let results = nyaa::extract_results(&body);
    assert_eq!(results.len(), 2);
    assert_eq!(results[0].title, "Good One");
    assert_eq!(results[1].title, "Good Two");
}

#[test]
fn nyaa_row_without_magnet_is_skipped() {
    let row = nyaa_row("No Magnet", "https://example.org/1.torrent", NYAA_CELLS);
    let body = format!("<table><tbody>{}</tbody></table>", row);
    let results = nyaa::extract_results(&body);
    assert!(results.is_empty());
}

#[test]
fn nyaa_row_with_empty_title_is_skipped() {
    let row = nyaa_row("", "magnet:?xt=urn:btih:abc", NYAA_CELLS);
    let body = format!("<table><tbody>{}</tbody></table>", row);
    let results = nyaa::extract_results(&body);
    assert!(results.is_empty());
}

fn piratebay_row(title: &str, href: &str, desc: &str, seeders: &str) -> String {
    format!(
        "<tr><td class=\"vertTh\">cat</td><td><div class=\"detName\"><a href=\"/t/1\" class=\"detLink\">{}</a></div><a href=\"{}\"><img src=\"/m.png\" alt=\"Magnet link\"/></a><font class=\"detDesc\">{}</font></td><td align=\"right\">{}</td><td align=\"right\">9</td></tr>",
        title, href, desc, seeders
    )
}

#[test]
fn piratebay_extracts_complete_rows() {
    let row = piratebay_row(
        "Test Episode 02",
        "magnet:?xt=urn:btih:def&amp;dn=y&amp;tr=udp://t1",
        "Uploaded 01-02&nbsp;2003, Size 1.2&nbsp;GiB, ULed by x",
        "42",
    );
    let body = format!("<table><tbody>{}</tbody></table>", row);
    let results = piratebay::extract_results(&body);
    assert_eq!(results.len(), 1);
    assert_eq!(results[0].title, "Test Episode 02");
    assert_eq!(results[0].magnet, "magnet:?xt=urn:btih:def&dn=y");
    assert_eq!(results[0].size, "1.2 GiB");
    assert_eq!(results[0].seeders, "42");
}

#[test]
fn piratebay_row_without_size_field_is_skipped_alone() {
    let good = piratebay_row(
        "Has Size",
        "magnet:?xt=urn:btih:a",
        "Uploaded 01-02&nbsp;2003, Size 700&nbsp;MiB, ULed by x",
        "3",
    );
    // The description has no second comma-separated field, so no size
    // can be cut out of it; only this row is dropped.
    let broken = piratebay_row("No Size", "magnet:?xt=urn:btih:b", "Uploaded only", "5");
    let body = format!("<table><tbody>{}{}</tbody></table>", good, broken);
    let results = piratebay::extract_results(&body);
    assert_eq!(results.len(), 1);
    assert_eq!(results[0].title, "Has Size");
    assert_eq!(results[0].size, "700 MiB");
}

#[test]
fn yts_builds_one_record_per_torrent_entry() {
    let movies = vec![YtsMovieInfo {
        title_long: String::from("Test Star (2020)"),
        slug: String::from("test-star-2020"),
        torrents: vec![
            YtsTorrentInfo {
                hash: String::from("ABC123"),
                size: String::from("1.9 GiB"),
                seeds: 57,
            },
            YtsTorrentInfo {
                hash: String::from("DEF456"),
                size: String::from("700 MiB"),
                seeds: 0,
            },
        ],
    }];
    let results = yts::extract_results(movies);
    assert_eq!(results.len(), 2);
    assert_eq!(results[0].title, "Test Star (2020)");
    assert_eq!(results[0].size, "1.9 GiB");
    assert_eq!(results[0].seeders, "57");
    assert!(results[0].magnet.starts_with("magnet:?xt=urn:btih:ABC123&dn=test-star-2020&tr="));
    assert_eq!(results[1].title, "Test Star (2020)");
    assert_eq!(results[1].seeders, "0");
    assert!(results[1].magnet.starts_with("magnet:?xt=urn:btih:DEF456&dn=test-star-2020&tr="));
}

#[test]
fn make_magnet_appends_the_fixed_trackers() {
    let m = make_magnet(String::from("HASH"), String::from("name-slug"));
    let expected = "magnet:?xt=urn:btih:HASH&dn=name-slug&tr=udp://open.demonii.com:1337/announce&tr=udp://tracker.openbittorrent.com:80&tr=udp://tracker.coppersurfer.tk:6969&tr=udp://glotorrents.pw:6969/announce&tr=udp://tracker.opentrackr.org:1337/announce&tr=udp://torrent.gresille.org:80/announce&tr=udp://p4p.arenabg.com:1337&tr=udp://tracker.leechers-paradise.org:6969";
    assert_eq!(m, expected);
}

#[test]
fn clean_magnet_cuts_at_the_first_tracker() {
    let cleaned = clean_magnet("magnet:?xt=urn:btih:abc&dn=x&tr=udp://t1&tr=udp://t2");
    assert_eq!(cleaned.as_deref(), Some("magnet:?xt=urn:btih:abc&dn=x"));
    let untouched = clean_magnet("magnet:?xt=urn:btih:abc&dn=x");
    assert_eq!(untouched.as_deref(), Some("magnet:?xt=urn:btih:abc&dn=x"));
    assert_eq!(clean_magnet("https://example.org/file.torrent"), None);
    // The scheme marker must survive the cut: a marker hidden in the
    // stripped tracker noise does not make a magnet link.
    assert_eq!(clean_magnet("&tr=magnet:?xt=urn:btih:abc"), None);
}

#[test]
fn page_urls_encode_queries_per_site() {
    assert_eq!(
        nyaa::build_url("my query", 2),
        "https://nyaa.si/?f=0&c=0_0&q=my+query&s=seeders&o=desc&p=2"
    );
    assert_eq!(
        piratebay::build_url("my query", 2),
        "https://www.tpb.party/search/my%20query/2/99/0"
    );
    assert_eq!(
        yts::build_url("my query", 12),
        "https://yts.mx/api/v2/list_movies.json?query_term=my+query&page=12"
    );
}
