use magnetfinder::types::Torrent;

fn torrent_with_size(size: &str) -> Torrent {
    Torrent {
        title: String::from("t"),
        magnet: String::from("magnet:?xt=urn:btih:x"),
        size: String::from(size),
        seeders: String::from("1"),
    }
}

fn normalize(size: &str) -> i64 {
    torrent_with_size(size).get_size_as_i64()
}

#[test]
fn unit_multipliers_order_sizes() {
    let gib = normalize("1 GiB");
    let mib = normalize("512 MiB");
    let kib = normalize("100 KiB");
    assert!(gib > mib);
    assert!(mib > kib);
}

#[test]
fn exact_unit_values() {
    assert_eq!(normalize("1 GiB"), 100 * (1i64 << 30));
    assert_eq!(normalize("512 MiB"), 51200 * (1i64 << 20));
    assert_eq!(normalize("100 KiB"), 10000 * 1024);
    assert_eq!(normalize("2 TiB"), 200 * (1i64 << 40));
    assert_eq!(normalize("3 Bytes"), 300);
}

#[test]
fn empty_size_is_zero() {
    assert_eq!(normalize(""), 0);
}

#[test]
fn unrecognized_unit_is_multiplier_one() {
    assert_eq!(normalize("garbage unit"), 0);
    assert_eq!(normalize("2 XYZ"), 200);
}

#[test]
fn fractional_magnitudes_keep_two_digits() {
    assert_eq!(normalize("700.5 MiB"), 70050 * (1i64 << 20));
    assert_eq!(normalize("1.2 GiB"), 120 * (1i64 << 30));
    assert_eq!(normalize("1.234"), 123);
    assert_eq!(normalize("1.236"), 124);
    assert_eq!(normalize(".5"), 50);
    assert_eq!(normalize("5."), 500);
}

#[test]
fn unitless_value_is_scaled_only() {
    assert_eq!(normalize("7"), 700);
}

#[test]
fn negative_magnitudes_are_kept() {
    assert_eq!(normalize("-1.5 KiB"), -150 * 1024);
    assert_eq!(normalize("-2"), -200);
}

#[test]
fn malformed_magnitude_is_zero() {
    assert_eq!(normalize("abc MiB"), 0);
    assert_eq!(normalize("1.2.3 GiB"), 0);
    assert_eq!(normalize("."), 0);
    assert_eq!(normalize("-"), 0);
}

#[test]
fn exponent_forms_scale_the_magnitude() {
    assert_eq!(normalize("1e3"), 100000);
    assert_eq!(normalize("1e+3"), 100000);
    assert_eq!(normalize("2E2"), 20000);
    assert_eq!(normalize("1e3 GiB"), 100000 * (1i64 << 30));
    assert_eq!(normalize("1.5e1"), 1500);
    assert_eq!(normalize("15e-1"), 150);
    assert_eq!(normalize("1.5e-2"), 2);
    assert_eq!(normalize("5e-3"), 1);
    assert_eq!(normalize("4.9e-3"), 0);
    assert_eq!(normalize("-1.5e1"), -1500);
    assert_eq!(normalize("0e999999999999999999999999"), 0);
    assert_eq!(normalize("1e999999999999999999999999"), i64::MAX);
    assert_eq!(normalize("-1e999999999999999999999999"), i64::MIN);
    assert_eq!(normalize("1e-999999999999999999999999"), 0);
    assert_eq!(normalize("1e"), 0);
    assert_eq!(normalize("1e3.5"), 0);
    assert_eq!(normalize("e3"), 0);
}

#[test]
fn infinity_words_saturate_by_sign() {
    assert_eq!(normalize("inf"), i64::MAX);
    assert_eq!(normalize("-inf"), i64::MIN);
    assert_eq!(normalize("+infinity"), i64::MAX);
    assert_eq!(normalize("INFINITY"), i64::MAX);
    assert_eq!(normalize("InF"), i64::MAX);
    assert_eq!(normalize("inf GiB"), i64::MAX);
    assert_eq!(normalize("-inf KiB"), i64::MIN);
    assert_eq!(normalize("nan"), 0);
    assert_eq!(normalize("infinit"), 0);
}

#[test]
fn huge_sizes_saturate() {
    assert_eq!(normalize("999999999999999999999 TiB"), i64::MAX);
    assert_eq!(normalize("-999999999999999999999 TiB"), i64::MIN);
}
