use oracle::favicon::{
    absolute, attribute, cache_stem, candidates, declared_icons, extension_for, fallback_url,
    icon_file_name, looks_like_markup, origin, page_text, usable_icon, MAX_BYTES,
};

const PAGE: &str = "https://veln.dev/dashboard?tab=1";

#[test]
fn the_fallback_is_the_origin_plus_the_conventional_path() {
    assert_eq!(fallback_url(PAGE).as_deref(), Some("https://veln.dev/favicon.ico"));
    // The realistic self-hosted case: plain http, an address, a port.
    assert_eq!(
        fallback_url("http://89.107.53.161:9400").as_deref(),
        Some("http://89.107.53.161:9400/favicon.ico")
    );
}

#[test]
fn only_http_urls_have_an_origin() {
    for url in ["ssh://box/thing", "file:///c:/tmp", "not a url", "https://"] {
        assert_eq!(origin(url), None, "{url}");
    }
}

#[test]
fn a_declared_icon_is_preferred_over_the_fallback() {
    let html = r#"<html><head><link rel="icon" href="/brand/mark.png"></head>"#;

    assert_eq!(
        candidates(html, PAGE),
        vec![
            "https://veln.dev/brand/mark.png".to_string(),
            "https://veln.dev/favicon.ico".to_string(),
        ]
    );
}

#[test]
fn a_touch_icon_is_tried_after_a_real_one() {
    let html = r#"
            <link rel="apple-touch-icon" sizes="180x180" href="/touch.png">
            <link rel="shortcut icon" href="/small.ico">
        "#;

    let found = declared_icons(html);
    assert_eq!(found, vec!["/small.ico".to_string(), "/touch.png".to_string()]);
}

#[test]
fn links_that_are_not_icons_are_ignored() {
    let html = r#"
            <link rel="stylesheet" href="/app.css">
            <link rel="preconnect" href="https://fonts.example">
        "#;

    assert!(declared_icons(html).is_empty());
}

#[test]
fn attributes_are_read_in_every_spelling_pages_use() {
    assert_eq!(declared_icons(r#"<link href='/a.png' rel='icon'>"#), vec!["/a.png".to_string()]);
    assert_eq!(declared_icons("<link rel=icon href=/b.png>"), vec!["/b.png".to_string()]);
    // Upper-case tags and attributes are still HTML.
    assert_eq!(declared_icons(r#"<LINK REL="ICON" HREF="/C.png">"#), vec!["/C.png".to_string()]);
}

#[test]
fn an_href_is_never_matched_inside_another_attribute() {
    // `hreflang` contains `href`, and reading it would yield a language tag.
    let html = r#"<link rel="icon" hreflang="en" href="/real.png">"#;
    assert_eq!(declared_icons(html), vec!["/real.png".to_string()]);
}

#[test]
fn every_form_of_href_resolves() {
    assert_eq!(
        absolute("https://cdn.example/i.png", PAGE).as_deref(),
        Some("https://cdn.example/i.png")
    );
    assert_eq!(absolute("//cdn.example/i.png", PAGE).as_deref(), Some("https://cdn.example/i.png"));
    assert_eq!(absolute("/i.png", PAGE).as_deref(), Some("https://veln.dev/i.png"));
    assert_eq!(absolute("i.png", PAGE).as_deref(), Some("https://veln.dev/i.png"));
    assert_eq!(
        absolute("i.png", "https://veln.dev/a/b/page").as_deref(),
        Some("https://veln.dev/a/b/i.png")
    );
    // An inline icon is already the image, so there is nothing to fetch.
    assert_eq!(absolute("data:image/png;base64,AAAA", PAGE), None);
}

#[test]
fn an_index_page_served_for_a_missing_icon_is_rejected() {
    assert!(looks_like_markup(b"<!DOCTYPE html><html><body>404"));
    assert!(looks_like_markup(b"<html lang=\"en\">"));
    // An SVG is markup and a perfectly good icon.
    assert!(!looks_like_markup(br#"<svg xmlns="http://www.w3.org/2000/svg"/>"#));
    assert!(!looks_like_markup(&[0x89, b'P', b'N', b'G']));
}

#[test]
fn the_cache_name_is_stable_and_per_url() {
    assert_eq!(cache_stem(PAGE), cache_stem(PAGE));
    assert_ne!(cache_stem(PAGE), cache_stem("https://other.example"));
    assert!(cache_stem(PAGE).starts_with("fav-"));
}

#[test]
fn the_cache_name_is_sixteen_hex_digits() {
    let stem = cache_stem(PAGE);
    assert_eq!(stem.len(), 20);
    assert!(stem[4..].chars().all(|c| c.is_ascii_hexdigit() && !c.is_ascii_uppercase()));
    let file = icon_file_name(PAGE, "png");
    assert_eq!(file, format!("{stem}.png"));
}

#[test]
fn the_extension_comes_from_the_type_then_the_path() {
    assert_eq!(extension_for("image/PNG; charset=binary", "https://x/icon"), Some("png"));
    assert_eq!(extension_for("image/vnd.microsoft.icon", "https://x/a.png"), Some("ico"));
    assert_eq!(extension_for("", "https://x/brand/Mark.SVG?v=2#top"), Some("svg"));
    assert_eq!(extension_for("text/html", "https://x/icon.jpeg"), Some("jpg"));
    assert_eq!(extension_for("text/html", "https://x/icon"), None);
}

#[test]
fn a_body_is_kept_only_when_it_can_be_an_icon() {
    assert!(usable_icon(&[0x89, b'P', b'N', b'G']));
    assert!(!usable_icon(&[]));
    assert!(!usable_icon(b"   <!doctype html><p>not here"));
    assert!(!usable_icon(&vec![0u8; MAX_BYTES + 1]));
}

#[test]
fn a_page_is_decoded_leniently() {
    assert_eq!(page_text(b"<link rel=icon>"), "<link rel=icon>");
    assert_eq!(page_text(&[b'a', 0xff, b'b']), "a\u{fffd}b");
}

#[test]
fn an_attribute_is_read_only_as_a_whole_name() {
    let tag: Vec<char> = "<link data-rel=\"x\" rel = ' icon ' >".chars().collect();
    let name: Vec<char> = "rel".chars().collect();
    let value: String = attribute(&tag, &name).unwrap().into_iter().collect();
    assert_eq!(value, "icon");
}
