//! Tests of the catalog read path: the query engine, the cache wire format
//! and the read-through cache.

use catalog_core::cache::{cache_key, plan_request, CachePlan, MemoryStore};
use catalog_core::catalog::{
    Catalog, Category, CategoryProductLink, CategoryTranslation, Product, ProductInfo,
    ProductTranslation,
};
use catalog_core::codec::{decode_payload, encode_payload};
use catalog_core::engine::fetch_grouped;

fn tr(category_id: u128, locale: &str, name: &str) -> CategoryTranslation {
    CategoryTranslation { category_id, locale: locale.to_string(), name: name.to_string() }
}

fn ptr(product_id: u128, locale: &str, name: &str, description: Option<&str>) -> ProductTranslation {
    ProductTranslation {
        product_id,
        locale: locale.to_string(),
        name: name.to_string(),
        description: description.map(|d| d.to_string()),
    }
}

fn link(category_id: u128, product_id: u128) -> CategoryProductLink {
    CategoryProductLink { category_id, product_id }
}

/// Three categories with ordinals `[2, None, 1]`, four products (one
/// inactive), English everywhere and French on part of the data.
fn sample_catalog() -> Catalog {
    Catalog {
        categories: vec![
            Category { id: 1, order: Some(2) },
            Category { id: 2, order: None },
            Category { id: 3, order: Some(1) },
        ],
        category_translations: vec![
            tr(1, "en", "Accessories"),
            tr(2, "en", "Misc"),
            tr(3, "en", "Shirts"),
            tr(1, "fr", "Accessoires"),
            tr(3, "fr", "Shirts FR"),
        ],
        products: vec![
            Product {
                id: 10,
                is_active: true,
                price_minor: Some(1999),
                code: Some("RS".to_string()),
                slug: Some("red-shirt".to_string()),
            },
            Product { id: 11, is_active: true, price_minor: Some(2999), code: None, slug: None },
            Product { id: 12, is_active: false, price_minor: Some(999), code: None, slug: None },
            Product { id: 13, is_active: true, price_minor: None, code: None, slug: None },
        ],
        product_translations: vec![
            ptr(10, "en", "Red Shirt", Some("A red shirt")),
            ptr(11, "en", "Blue Shirt", None),
            ptr(12, "en", "Ghost Item", None),
            ptr(13, "en", "cap", None),
            ptr(10, "fr", "Rouge Red", Some("Une chemise")),
            ptr(11, "fr", "Bleu", None),
            ptr(13, "fr", "Casquette", None),
        ],
        links: vec![link(3, 10), link(3, 11), link(3, 12), link(1, 13), link(2, 11)],
    }
}

fn ids(groups: &[catalog_core::catalog::CategoryWithProducts]) -> Vec<u128> {
    groups.iter().map(|g| g.id).collect()
}

fn product_names(g: &catalog_core::catalog::CategoryWithProducts) -> Vec<String> {
    g.products.iter().map(|p: &ProductInfo| p.name.clone()).collect()
}

#[test]
fn orders_nulls_last() {
    let cat = sample_catalog();
    let r = fetch_grouped(&cat, "en", None);
    assert_eq!(ids(&r), vec![3, 1, 2]);
    assert_eq!(r[0].order, Some(1));
    assert_eq!(r[1].order, Some(2));
    assert_eq!(r[2].order, None);
}

#[test]
fn products_sorted_by_name() {
    let cat = sample_catalog();
    let r = fetch_grouped(&cat, "en", None);
    assert_eq!(product_names(&r[0]), vec!["Blue Shirt".to_string(), "Red Shirt".to_string()]);
    assert_eq!(r[0].name, "Shirts");
}

#[test]
fn inactive_products_excluded() {
    let cat = sample_catalog();
    let r = fetch_grouped(&cat, "en", None);
    for g in &r {
        for p in &g.products {
            assert_ne!(p.id, 12);
        }
    }
}

#[test]
fn missing_translation_drops_category() {
    let cat = sample_catalog();
    let r = fetch_grouped(&cat, "fr", None);
    assert_eq!(ids(&r), vec![3, 1]);
    assert_eq!(product_names(&r[0]), vec!["Bleu".to_string(), "Rouge Red".to_string()]);
    assert_eq!(product_names(&r[1]), vec!["Casquette".to_string()]);
}

#[test]
fn empty_catalog_returns_empty() {
    let cat = Catalog {
        categories: vec![Category { id: 1, order: Some(1) }],
        category_translations: vec![tr(1, "en", "Empty")],
        products: vec![Product { id: 9, is_active: false, price_minor: None, code: None, slug: None }],
        product_translations: vec![ptr(9, "en", "Off", None)],
        links: vec![link(1, 9)],
    };
    let r = fetch_grouped(&cat, "en", None);
    assert!(r.is_empty());
}

#[test]
fn search_without_match_returns_empty() {
    let cat = sample_catalog();
    let r = fetch_grouped(&cat, "en", Some("zzzz"));
    assert!(r.is_empty());
}

#[test]
fn search_terms_all_must_match() {
    let cat = sample_catalog();
    let r = fetch_grouped(&cat, "fr", Some("red shirt"));
    assert_eq!(ids(&r), vec![3]);
    assert_eq!(product_names(&r[0]), vec!["Rouge Red".to_string()]);
}

#[test]
fn search_is_case_insensitive() {
    let cat = sample_catalog();
    let r = fetch_grouped(&cat, "en", Some("RED"));
    assert_eq!(ids(&r), vec![3]);
    assert_eq!(product_names(&r[0]), vec!["Red Shirt".to_string()]);
}

#[test]
fn blank_search_is_no_filter() {
    let cat = sample_catalog();
    let plain = fetch_grouped(&cat, "en", None);
    let blank = fetch_grouped(&cat, "en", Some("  \t "));
    assert_eq!(plain, blank);
}

#[test]
fn repeated_fetch_identical() {
    let cat = sample_catalog();
    let a = fetch_grouped(&cat, "en", Some("shirt"));
    let b = fetch_grouped(&cat, "en", Some("shirt"));
    assert_eq!(a, b);
}

#[test]
fn codec_round_trip() {
    let cat = sample_catalog();
    let r = fetch_grouped(&cat, "en", None);
    let bytes = encode_payload(&r);
    let back = decode_payload(&bytes).expect("decodes");
    assert_eq!(back, r);
    let shirts = &back[0];
    let red = &shirts.products[1];
    assert_eq!(red.price_minor, Some(1999));
    assert_eq!(red.code, Some("RS".to_string()));
    assert_eq!(red.slug, Some("red-shirt".to_string()));
    assert_eq!(red.description, Some("A red shirt".to_string()));
}

#[test]
fn decode_rejects_garbage() {
    assert!(decode_payload(&vec![1, 2, 3]).is_none());
    assert!(decode_payload(&Vec::new()).is_none());
}

#[test]
fn decode_rejects_trailing_bytes() {
    let cat = sample_catalog();
    let r = fetch_grouped(&cat, "en", None);
    let mut bytes = encode_payload(&r);
    bytes.push(0);
    assert!(decode_payload(&bytes).is_none());
}

#[test]
fn cache_key_uses_locale_only() {
    assert_eq!(cache_key("en"), "products_grouped_by_category:en".to_string());
    assert_eq!(cache_key("fr"), "products_grouped_by_category:fr".to_string());
}

#[test]
fn plan_lookup_without_search() {
    match plan_request("en", None) {
        CachePlan::Lookup { key } => assert_eq!(key, "products_grouped_by_category:en".to_string()),
        CachePlan::Bypass => panic!("unfiltered request must read through"),
    }
    match plan_request("en", Some("   ")) {
        CachePlan::Lookup { key } => assert_eq!(key, "products_grouped_by_category:en".to_string()),
        CachePlan::Bypass => panic!("blank search is no filter"),
    }
}

#[test]
fn plan_bypass_with_search() {
    match plan_request("en", Some("red")) {
        CachePlan::Bypass => {},
        CachePlan::Lookup { .. } => panic!("search must bypass the cache"),
    }
}

#[test]
fn cache_miss_populates_and_hit_skips_engine() {
    let cat = sample_catalog();
    let mut store = MemoryStore::new();
    let now = 100u64;
    let first = Product::get_products_grouped_by_category(&cat, &mut store, now, "en", None);
    assert_eq!(ids(&first), vec![3, 1, 2]);

    let key = cache_key("en");
    let stored = store.get(key.as_str(), now).expect("entry stored");
    assert_eq!(decode_payload(&stored).expect("stored bytes decode"), first);

    // The second call is answered from the store: an empty data source
    // proves the engine was never consulted.
    let empty = Catalog {
        categories: vec![],
        category_translations: vec![],
        products: vec![],
        product_translations: vec![],
        links: vec![],
    };
    let second = Product::get_products_grouped_by_category(&empty, &mut store, now + 1, "en", None);
    assert_eq!(second, first);
}

#[test]
fn cache_entry_expires_after_ttl() {
    let cat = sample_catalog();
    let mut store = MemoryStore::new();
    let now = 100u64;
    let _ = Product::get_products_grouped_by_category(&cat, &mut store, now, "en", None);
    let key = cache_key("en");
    assert!(store.get(key.as_str(), now + 3599).is_some());
    assert!(store.get(key.as_str(), now + 3600).is_none());
}

#[test]
fn search_bypasses_cache() {
    let cat = sample_catalog();
    let mut store = MemoryStore::new();
    let r = Product::get_products_grouped_by_category(&cat, &mut store, 100, "en", Some("red"));
    assert_eq!(ids(&r), vec![3]);
    let key = cache_key("en");
    assert!(store.get(key.as_str(), 100).is_none());
}

#[test]
fn search_leaves_existing_entry_alone() {
    let cat = sample_catalog();
    let mut store = MemoryStore::new();
    let key = cache_key("en");
    store.set(key.as_str(), vec![7, 7, 7], 100, 3600);
    let _ = Product::get_products_grouped_by_category(&cat, &mut store, 100, "en", Some("red"));
    assert_eq!(store.get(key.as_str(), 100), Some(vec![7, 7, 7]));
}

#[test]
fn corrupt_entry_treated_as_miss() {
    let cat = sample_catalog();
    let mut store = MemoryStore::new();
    let key = cache_key("en");
    store.set(key.as_str(), vec![7, 7, 7], 100, 3600);
    let r = Product::get_products_grouped_by_category(&cat, &mut store, 100, "en", None);
    assert_eq!(ids(&r), vec![3, 1, 2]);
    let stored = store.get(key.as_str(), 100).expect("rewritten");
    assert_eq!(decode_payload(&stored).expect("now well-formed"), r);
}

#[test]
fn cached_locales_are_independent() {
    let cat = sample_catalog();
    let mut store = MemoryStore::new();
    let en = Product::get_products_grouped_by_category(&cat, &mut store, 100, "en", None);
    let fr = Product::get_products_grouped_by_category(&cat, &mut store, 100, "fr", None);
    assert_ne!(en, fr);
    let en_again = Product::get_products_grouped_by_category(&cat, &mut store, 101, "en", None);
    let fr_again = Product::get_products_grouped_by_category(&cat, &mut store, 101, "fr", None);
    assert_eq!(en, en_again);
    assert_eq!(fr, fr_again);
}

#[test]
fn memory_store_newest_entry_wins() {
    let mut store = MemoryStore::new();
    store.set("k", vec![1], 10, 100);
    store.set("k", vec![2], 20, 100);
    assert_eq!(store.get("k", 30), Some(vec![2]));
    assert!(store.get("other", 30).is_none());
}

#[test]
fn products_with_equal_names_order_by_id() {
    // Pinned tie-break: equal names sort by product identifier ascending.
    let cat = Catalog {
        categories: vec![Category { id: 1, order: Some(1) }],
        category_translations: vec![tr(1, "en", "Twins")],
        products: vec![
            Product { id: 22, is_active: true, price_minor: None, code: None, slug: None },
            Product { id: 21, is_active: true, price_minor: None, code: None, slug: None },
        ],
        product_translations: vec![ptr(22, "en", "Same", None), ptr(21, "en", "Same", None)],
        links: vec![link(1, 21), link(1, 22)],
    };
    let r = fetch_grouped(&cat, "en", None);
    let got: Vec<u128> = r[0].products.iter().map(|p| p.id).collect();
    assert_eq!(got, vec![21, 22]);
}

#[test]
fn categories_with_equal_ordinals_order_by_id() {
    // Pinned tie-break: equal ordinals sort by category identifier ascending.
    let cat = Catalog {
        categories: vec![
            Category { id: 6, order: Some(4) },
            Category { id: 5, order: Some(4) },
        ],
        category_translations: vec![tr(6, "en", "Six"), tr(5, "en", "Five")],
        products: vec![Product { id: 30, is_active: true, price_minor: None, code: None, slug: None }],
        product_translations: vec![ptr(30, "en", "Thing", None)],
        links: vec![link(5, 30), link(6, 30)],
    };
    let r = fetch_grouped(&cat, "en", None);
    assert_eq!(ids(&r), vec![5, 6]);
}

#[test]
fn search_folding_is_ascii_only() {
    // Pinned policy: matching is case-insensitive for ASCII letters only;
    // other characters must match exactly.
    let cat = Catalog {
        categories: vec![Category { id: 1, order: None }],
        category_translations: vec![tr(1, "fr", "Saisons")],
        products: vec![Product { id: 40, is_active: true, price_minor: None, code: None, slug: None }],
        product_translations: vec![ptr(40, "fr", "\u{e9}t\u{e9}", None)],
        links: vec![link(1, 40)],
    };
    assert_eq!(fetch_grouped(&cat, "fr", Some("\u{e9}t\u{e9}")).len(), 1);
    assert!(fetch_grouped(&cat, "fr", Some("\u{c9}T\u{c9}")).is_empty());
    assert_eq!(fetch_grouped(&cat, "fr", Some("SAISONS")).len(), 1);
}

#[test]
fn unicode_blank_search_is_no_filter() {
    // The blank set is the Unicode white-space set: a search made only of
    // such characters is no filter and stays cacheable.
    let cat = sample_catalog();
    let plain = fetch_grouped(&cat, "en", None);
    let blank = fetch_grouped(&cat, "en", Some("\u{b}\u{c}\u{85}\u{a0}\u{2003}\u{3000}"));
    assert_eq!(plain, blank);
    match plan_request("en", Some("\u{b}")) {
        CachePlan::Lookup { key } => assert_eq!(key, "products_grouped_by_category:en".to_string()),
        CachePlan::Bypass => panic!("whitespace-only search is no filter"),
    }
}

#[test]
fn unicode_blank_search_reads_through_cache() {
    // A whitespace-only search behaves exactly like no search: the first
    // call populates the locale's entry.
    let cat = sample_catalog();
    let mut store = MemoryStore::new();
    let r = Product::get_products_grouped_by_category(&cat, &mut store, 100, "en", Some("\u{b}"));
    assert_eq!(ids(&r), vec![3, 1, 2]);
    let key = cache_key("en");
    let stored = store.get(key.as_str(), 100).expect("entry written");
    assert_eq!(decode_payload(&stored).expect("stored bytes decode"), r);
}

#[test]
fn nonbreaking_space_separates_terms() {
    let cat = sample_catalog();
    let spaced = fetch_grouped(&cat, "fr", Some("red shirt"));
    let nbsp = fetch_grouped(&cat, "fr", Some("red\u{a0}shirt"));
    assert_eq!(nbsp, spaced);
    assert_eq!(ids(&nbsp), vec![3]);
}

#[test]
fn snapshot_check_accepts_and_rejects() {
    let cat = sample_catalog();
    assert!(cat.check_wf());

    let mut dup_translation = sample_catalog();
    dup_translation.category_translations.push(tr(3, "en", "Shirts again"));
    assert!(!dup_translation.check_wf());

    let mut dup_id = sample_catalog();
    dup_id.products.push(Product {
        id: 10,
        is_active: true,
        price_minor: None,
        code: None,
        slug: None,
    });
    assert!(!dup_id.check_wf());
}

#[test]
fn serve_fresh_no_active_products_is_empty() {
    // With no valid cache entry and no active product, the read path
    // returns the empty list, not an error.
    let cat = Catalog {
        categories: vec![Category { id: 1, order: Some(1) }],
        category_translations: vec![tr(1, "en", "Empty")],
        products: vec![Product { id: 9, is_active: false, price_minor: None, code: None, slug: None }],
        product_translations: vec![ptr(9, "en", "Off", None)],
        links: vec![link(1, 9)],
    };
    let mut store = MemoryStore::new();
    let r = Product::get_products_grouped_by_category(&cat, &mut store, 100, "en", None);
    assert!(r.is_empty());
}
