//! Tests of the locale resolver and of bearer-token extraction.

use catalog_core::auth::Authentication;
use catalog_core::cache::QueryParams;
use catalog_core::locale::{resolve_locale, supported_locales};

#[test]
fn locale_picks_highest_quality() {
    assert_eq!(resolve_locale("en-US, fr;q=0.8, zh;q=0.9"), "zh".to_string());
    assert_eq!(resolve_locale("fr;q=0.2, en;q=0.7, zh;q=0.5"), "en".to_string());
}

#[test]
fn locale_tie_keeps_client_order() {
    assert_eq!(resolve_locale("fr, zh"), "fr".to_string());
    assert_eq!(resolve_locale("zh, fr"), "zh".to_string());
    assert_eq!(resolve_locale("fr;q=0.5, zh;q=0.5"), "fr".to_string());
}

#[test]
fn locale_default_on_empty() {
    assert_eq!(resolve_locale(""), "en".to_string());
}

#[test]
fn locale_default_on_no_match() {
    assert_eq!(resolve_locale("de, es;q=0.9"), "en".to_string());
    assert_eq!(resolve_locale("q"), "en".to_string());
    assert_eq!(resolve_locale(";q"), "en".to_string());
}

#[test]
fn locale_invalid_quality_counts_zero() {
    // An unparseable weight ranks below any parseable one.
    assert_eq!(resolve_locale("fr;q=yolo, zh;q=0.1"), "zh".to_string());
    // A weight above one is not a valid quality value either.
    assert_eq!(resolve_locale("fr;q=5, zh;q=0.1"), "zh".to_string());
    // With every weight invalid, client order decides.
    assert_eq!(resolve_locale("fr;q=, zh;q="), "fr".to_string());
}

#[test]
fn locale_exact_tag_match_only() {
    // Regional variants and other casings are distinct tags.
    assert_eq!(resolve_locale("en-US, fr;q=0.3"), "fr".to_string());
    assert_eq!(resolve_locale("FR, zh;q=0.4"), "zh".to_string());
}

#[test]
fn locale_spaces_are_stripped() {
    assert_eq!(resolve_locale(" fr ; q=0.5 , zh "), "zh".to_string());
    assert_eq!(resolve_locale("  fr  "), "fr".to_string());
}

#[test]
fn locale_quality_decimals() {
    assert_eq!(resolve_locale("fr;q=0.999, zh;q=1"), "zh".to_string());
    assert_eq!(resolve_locale("fr;q=0.999, zh;q=0.99"), "fr".to_string());
    assert_eq!(resolve_locale("fr;q=1.000, zh;q=0.5"), "fr".to_string());
}

#[test]
fn supported_locales_list() {
    let v = supported_locales();
    assert_eq!(v, vec!["fr".to_string(), "en".to_string(), "zh".to_string()]);
}

#[test]
fn bearer_token_strips_prefix() {
    assert_eq!(Authentication::bearer_token("Bearer abc.def.ghi"), "abc.def.ghi");
}

#[test]
fn bearer_token_strips_repeated_prefix() {
    assert_eq!(Authentication::bearer_token("Bearer Bearer tok"), "tok");
}

#[test]
fn bearer_token_trims_blanks() {
    assert_eq!(Authentication::bearer_token("Bearer   tok  "), "tok");
    assert_eq!(Authentication::bearer_token("  plain  "), "plain");
    assert_eq!(Authentication::bearer_token(""), "");
}

#[test]
fn query_params_search_text() {
    let with = QueryParams { search: Some("red shirt".to_string()) };
    let without = QueryParams { search: None };
    assert_eq!(with.search_text(), Some("red shirt"));
    assert_eq!(without.search_text(), None);
}

#[test]
fn bearer_token_trims_unicode_blanks() {
    assert_eq!(Authentication::bearer_token("Bearer \u{a0}tok\u{2003} "), "tok");
}
