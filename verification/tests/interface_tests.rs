use magnetfinder::interface::collect_magnet_links;
use magnetfinder::settings::DownloadDirCache;
use magnetfinder::text::{parse_i32, parse_usize};
use magnetfinder::types::{Media, Settings, Torrent, Website};

fn torrent(title: &str, magnet: &str) -> Torrent {
    Torrent {
        title: String::from(title),
        magnet: String::from(magnet),
        size: String::from("1 MiB"),
        seeders: String::from("1"),
    }
}

#[test]
fn website_answers_select_sites() {
    assert!(matches!(Website::new("nyaa").as_deref(), Ok([Website::Nyaa])));
    assert!(matches!(
        Website::new("piratebay").as_deref(),
        Ok([Website::Piratebay])
    ));
    assert!(matches!(
        Website::new("all").as_deref(),
        Ok([Website::Nyaa, Website::Piratebay])
    ));
}

#[test]
fn website_answers_are_trimmed_and_lowercased() {
    assert!(matches!(Website::new("  NyAa\n").as_deref(), Ok([Website::Nyaa])));
    assert!(matches!(Website::new("ALL\t").as_deref(), Ok([Website::Nyaa, Website::Piratebay])));
}

#[test]
fn unknown_website_is_refused() {
    let r = Website::new("rutracker");
    assert_eq!(r.unwrap_err(), "Unknown website, supported sites: nyaa, piratebay");
}

#[test]
fn media_answers_select_kinds() {
    assert!(matches!(Media::new("anime"), Ok(Media::Anime)));
    assert!(matches!(Media::new("movie"), Ok(Media::Movie)));
    assert!(matches!(Media::new("tvshow"), Ok(Media::TVShow)));
    assert!(matches!(Media::new(" TV \n"), Ok(Media::TVShow)));
    let r = Media::new("music");
    assert_eq!(r.unwrap_err(), "Unknown media type, supported types: anime, movie, tvshow");
}

#[test]
fn media_kind_picks_its_directory() {
    let settings = Settings {
        anime_dir: String::from("/media/anime"),
        tvshow_dir: String::from("/media/tv"),
        movie_dir: String::from("/media/movies"),
        default_directory: String::from("/downloads"),
        autodownload: false,
    };
    assert_eq!(Media::Anime.path(&settings), "/media/anime");
    assert_eq!(Media::Movie.path(&settings), "/media/movies");
    assert_eq!(Media::TVShow.path(&settings), "/media/tv");
}

#[test]
fn selections_resolve_to_magnet_links() {
    let torrents = vec![
        torrent("a", "magnet:?xt=urn:btih:a"),
        torrent("b", "magnet:?xt=urn:btih:b"),
        torrent("c", "magnet:?xt=urn:btih:c"),
    ];
    let selections = vec![String::from("3"), String::from("1")];
    let magnets = collect_magnet_links(&torrents, &selections).unwrap();
    assert_eq!(magnets, vec!["magnet:?xt=urn:btih:c", "magnet:?xt=urn:btih:a"]);
}

#[test]
fn non_numeric_selection_is_refused() {
    let torrents = vec![torrent("a", "magnet:?xt=urn:btih:a")];
    let selections = vec![String::from("x")];
    let r = collect_magnet_links(&torrents, &selections);
    assert_eq!(r.unwrap_err(), "Only input numbers indicated on the left-most column");
}

#[test]
fn out_of_range_selection_is_refused() {
    let torrents = vec![torrent("a", "magnet:?xt=urn:btih:a")];
    let too_big = vec![String::from("2")];
    let r = collect_magnet_links(&torrents, &too_big);
    assert_eq!(r.unwrap_err(), "Input out of range");
    let zero = vec![String::from("0")];
    let r = collect_magnet_links(&torrents, &zero);
    assert_eq!(r.unwrap_err(), "Input out of range");
}

#[test]
fn configured_dir_is_used_only_when_it_exists() {
    let mut cache = DownloadDirCache::new(Some(String::from("/configured")), true);
    assert_eq!(cache.value("/fallback"), "/configured");

    let mut cache = DownloadDirCache::new(Some(String::from("/configured")), false);
    assert_eq!(cache.value("/fallback"), "/fallback");

    let mut cache = DownloadDirCache::new(None, false);
    assert_eq!(cache.value("/fallback"), "/fallback");
}

#[test]
fn fallback_dir_is_fetched_once_and_cached() {
    let mut cache = DownloadDirCache::new(None, false);
    assert_eq!(cache.value("/first"), "/first");
    assert_eq!(cache.value("/second"), "/first");
}

#[test]
fn validate_path_prefers_existing_configured_dirs() {
    let mut cache = DownloadDirCache::new(None, false);
    let kept = Settings::validate_path(Some(String::from("/anime")), true, &mut cache, "/fb");
    assert_eq!(kept, "/anime");
    let replaced = Settings::validate_path(Some(String::from("/gone")), false, &mut cache, "/fb");
    assert_eq!(replaced, "/fb");
    let absent = Settings::validate_path(None, false, &mut cache, "/other");
    assert_eq!(absent, "/fb");
}

#[test]
fn default_settings_use_one_download_dir() {
    let s = Settings::from_download_dir(String::from("/dl"));
    assert_eq!(s.anime_dir, "/dl");
    assert_eq!(s.tvshow_dir, "/dl");
    assert_eq!(s.movie_dir, "/dl");
    assert_eq!(s.default_directory, "/dl");
    assert!(!s.autodownload);
}

#[test]
fn unsigned_parsing_matches_std() {
    assert_eq!(parse_usize("12"), Some(12));
    assert_eq!(parse_usize("+12"), Some(12));
    assert_eq!(parse_usize("0"), Some(0));
    assert_eq!(parse_usize(""), None);
    assert_eq!(parse_usize("-1"), None);
    assert_eq!(parse_usize("1.5"), None);
    assert_eq!(parse_usize("99999999999999999999999999"), None);
}

#[test]
fn signed_parsing_matches_std() {
    assert_eq!(parse_i32("12"), Some(12));
    assert_eq!(parse_i32("-3"), Some(-3));
    assert_eq!(parse_i32("+7"), Some(7));
    assert_eq!(parse_i32("2147483647"), Some(2147483647));
    assert_eq!(parse_i32("-2147483648"), Some(-2147483648));
    assert_eq!(parse_i32("2147483648"), None);
    assert_eq!(parse_i32("-2147483649"), None);
    assert_eq!(parse_i32("abc"), None);
    assert_eq!(parse_i32(""), None);
}
