use magnetfinder::dispatch::plan_tasks;
use magnetfinder::rank::{aggregate, collect_results, sort_torrents};
use magnetfinder::types::{Sort, Torrent, Website};

fn record(title: &str, size: &str, seeders: &str) -> Torrent {
    Torrent {
        title: String::from(title),
        magnet: String::from("magnet:?xt=urn:btih:x"),
        size: String::from(size),
        seeders: String::from(seeders),
    }
}

#[test]
fn sorts_by_seeders_with_unparsable_as_zero() {
    let records = vec![
        record("a", "1 MiB", "12"),
        record("b", "1 MiB", "abc"),
        record("c", "1 MiB", "7"),
    ];
    let sorted = sort_torrents(&Sort::Seeds, records);
    let titles: Vec<&str> = sorted.iter().map(|t| t.title.as_str()).collect();
    assert_eq!(titles, vec!["a", "c", "b"]);
}

#[test]
fn sorts_by_size_descending() {
    let records = vec![
        record("small", "100 KiB", "1"),
        record("large", "1 GiB", "1"),
        record("medium", "512 MiB", "1"),
    ];
    let sorted = sort_torrents(&Sort::Size, records);
    let titles: Vec<&str> = sorted.iter().map(|t| t.title.as_str()).collect();
    assert_eq!(titles, vec!["large", "medium", "small"]);
}

#[test]
fn equal_keys_keep_arrival_order() {
    let records = vec![
        record("first", "1 MiB", "5"),
        record("second", "1 MiB", "5"),
        record("third", "1 MiB", "5"),
        record("bigger", "2 MiB", "9"),
    ];
    let sorted = sort_torrents(&Sort::Size, records);
    let titles: Vec<&str> = sorted.iter().map(|t| t.title.as_str()).collect();
    assert_eq!(titles, vec!["bigger", "first", "second", "third"]);
}

#[test]
fn negative_seeder_text_sorts_below_zero() {
    let records = vec![
        record("neg", "1 MiB", "-3"),
        record("none", "1 MiB", "junk"),
        record("pos", "1 MiB", "2"),
    ];
    let sorted = sort_torrents(&Sort::Seeds, records);
    let titles: Vec<&str> = sorted.iter().map(|t| t.title.as_str()).collect();
    assert_eq!(titles, vec!["pos", "none", "neg"]);
}

#[test]
fn collect_concatenates_in_arrival_order() {
    let lists = vec![
        vec![record("a", "1 MiB", "1"), record("b", "1 MiB", "1")],
        vec![],
        vec![record("c", "1 MiB", "1")],
    ];
    let all = collect_results(lists);
    assert_eq!(all.len(), 3);
    let titles: Vec<&str> = all.iter().map(|t| t.title.as_str()).collect();
    assert_eq!(titles, vec!["a", "b", "c"]);
}

#[test]
fn failed_task_contributes_nothing_and_blocks_nothing() {
    // One fetch task hit a transport failure and deposited an empty
    // list; the other task's three records all survive aggregation.
    let lists = vec![
        vec![
            record("p1a", "1 MiB", "3"),
            record("p1b", "1 MiB", "2"),
            record("p1c", "1 MiB", "1"),
        ],
        vec![],
    ];
    let out = aggregate(lists, &Sort::Seeds, 50);
    assert_eq!(out.len(), 3);
    let titles: Vec<&str> = out.iter().map(|t| t.title.as_str()).collect();
    assert_eq!(titles, vec!["p1a", "p1b", "p1c"]);
}

#[test]
fn aggregate_length_is_min_of_total_and_limit() {
    let lists = vec![
        vec![record("a", "1 MiB", "1"), record("b", "1 MiB", "1")],
        vec![record("c", "1 MiB", "1")],
    ];
    assert_eq!(aggregate(lists.clone(), &Sort::Size, 0).len(), 0);
    assert_eq!(aggregate(lists.clone(), &Sort::Size, 2).len(), 2);
    assert_eq!(aggregate(lists.clone(), &Sort::Size, 3).len(), 3);
    assert_eq!(aggregate(lists, &Sort::Size, 10).len(), 3);
}

#[test]
fn truncation_keeps_the_highest_ranked() {
    let lists = vec![vec![
        record("small", "100 KiB", "1"),
        record("large", "1 GiB", "1"),
        record("medium", "512 MiB", "1"),
    ]];
    let out = aggregate(lists, &Sort::Size, 2);
    let titles: Vec<&str> = out.iter().map(|t| t.title.as_str()).collect();
    assert_eq!(titles, vec!["large", "medium"]);
}

#[test]
fn empty_aggregation_is_empty() {
    let out = aggregate(Vec::new(), &Sort::Size, 20);
    assert!(out.is_empty());
}

#[test]
fn plan_covers_every_site_and_page() {
    let sites = vec![Website::Nyaa, Website::Piratebay];
    let plan = plan_tasks(&sites, 2);
    assert_eq!(plan.len(), 4);
    assert_eq!(plan[0], (Website::Nyaa, 1));
    assert_eq!(plan[1], (Website::Nyaa, 2));
    assert_eq!(plan[2], (Website::Piratebay, 1));
    assert_eq!(plan[3], (Website::Piratebay, 2));
}

#[test]
fn plan_with_zero_depth_is_empty() {
    let sites = vec![Website::Nyaa];
    let plan = plan_tasks(&sites, 0);
    assert!(plan.is_empty());
}
