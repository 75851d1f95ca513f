//! The data model of the catalog read path.
//!
//! The five input relations mirror the relational store: categories, their
//! locale-specific translations, products, their locale-specific
//! translations, and the category-product link relation. A `Catalog` is a
//! read-only snapshot of those relations. The output shape is
//! `CategoryWithProducts`: one category together with its ordered products,
//! which is also the unit that the cache stores.
//!
//! Identifiers are 128-bit values (the width of a UUID); a price is carried
//! in minor currency units so that it round-trips through serialization
//! without loss.

use vstd::prelude::*;

use crate::text::{chars_eq, chars_of};

verus! {

/// A category row: identifier and optional ordinal.
pub struct Category {
    pub id: u128,
    pub order: Option<i32>,
}

/// A locale-specific display name for a category.
pub struct CategoryTranslation {
    pub category_id: u128,
    pub locale: String,
    pub name: String,
}

/// A product row. Only rows with `is_active` set are ever served.
pub struct Product {
    pub id: u128,
    pub is_active: bool,
    pub price_minor: Option<u64>,
    pub code: Option<String>,
    pub slug: Option<String>,
}

/// A locale-specific name and description for a product.
pub struct ProductTranslation {
    pub product_id: u128,
    pub locale: String,
    pub name: String,
    pub description: Option<String>,
}

/// One edge of the category-product link relation.
pub struct CategoryProductLink {
    pub category_id: u128,
    pub product_id: u128,
}

/// A read-only snapshot of the five relations the query engine joins.
pub struct Catalog {
    pub categories: Vec<Category>,
    pub category_translations: Vec<CategoryTranslation>,
    pub products: Vec<Product>,
    pub product_translations: Vec<ProductTranslation>,
    pub links: Vec<CategoryProductLink>,
}

/// The view of an optional string.
pub open spec fn opt_str_view(o: Option<String>) -> Option<Seq<char>> {
    match o {
        Option::Some(s) => Option::Some(s@),
        Option::None => Option::None,
    }
}

impl Catalog {
    /// Well-formedness of a snapshot, as the relational store guarantees it:
    /// identifiers are primary keys, and each entity has at most one
    /// translation per locale. Duplicate link rows are harmless and not
    /// excluded.
    pub open spec fn wf(self) -> bool {
        &&& forall|i: int, j: int|
            0 <= i < j < self.categories@.len() ==> (#[trigger] self.categories@[i]).id != (
            #[trigger] self.categories@[j]).id
        &&& forall|i: int, j: int|
            0 <= i < j < self.products@.len() ==> (#[trigger] self.products@[i]).id != (
            #[trigger] self.products@[j]).id
        &&& forall|i: int, j: int|
            0 <= i < j < self.category_translations@.len() ==> !((
            #[trigger] self.category_translations@[i]).category_id == (
            #[trigger] self.category_translations@[j]).category_id
                && self.category_translations@[i].locale@ == self.category_translations@[j].locale@)
        &&& forall|i: int, j: int|
            0 <= i < j < self.product_translations@.len() ==> !((
            #[trigger] self.product_translations@[i]).product_id == (
            #[trigger] self.product_translations@[j]).product_id
                && self.product_translations@[i].locale@ == self.product_translations@[j].locale@)
    }
}

/// Whether category identifiers are pairwise distinct.
fn categories_unique(v: &Vec<Category>) -> (r: bool)
    ensures
        r == (forall|i: int, j: int|
            0 <= i < j < v@.len() ==> (#[trigger] v@[i]).id != (#[trigger] v@[j]).id),
{
    let mut i: usize = 0;
    while i < v.len()
        invariant
            i <= v@.len(),
            forall|a: int, b: int|
                0 <= a < b < v@.len() && a < i ==> (#[trigger] v@[a]).id != (#[trigger] v@[b]).id,
        decreases v@.len() - i,
    {
        let mut j: usize = i + 1;
        while j < v.len()
            invariant
                i < j <= v@.len(),
                forall|b: int| i < b < j ==> v@[i as int].id != (#[trigger] v@[b]).id,
            decreases v@.len() - j,
        {
            if v[i].id == v[j].id {
                proof {
                    assert(v@[i as int].id == v@[j as int].id);
                }
                return false;
            }
            j += 1;
        }
        i += 1;
    }
    true
}

/// Whether product identifiers are pairwise distinct.
fn products_unique(v: &Vec<Product>) -> (r: bool)
    ensures
        r == (forall|i: int, j: int|
            0 <= i < j < v@.len() ==> (#[trigger] v@[i]).id != (#[trigger] v@[j]).id),
{
    let mut i: usize = 0;
    while i < v.len()
        invariant
            i <= v@.len(),
            forall|a: int, b: int|
                0 <= a < b < v@.len() && a < i ==> (#[trigger] v@[a]).id != (#[trigger] v@[b]).id,
        decreases v@.len() - i,
    {
        let mut j: usize = i + 1;
        while j < v.len()
            invariant
                i < j <= v@.len(),
                forall|b: int| i < b < j ==> v@[i as int].id != (#[trigger] v@[b]).id,
            decreases v@.len() - j,
        {
            if v[i].id == v[j].id {
                proof {
                    assert(v@[i as int].id == v@[j as int].id);
                }
                return false;
            }
            j += 1;
        }
        i += 1;
    }
    true
}

/// Whether no category has two translations for one locale.
fn cat_translations_unique(v: &Vec<CategoryTranslation>) -> (r: bool)
    ensures
        r == (forall|i: int, j: int|
            0 <= i < j < v@.len() ==> !((#[trigger] v@[i]).category_id == (
            #[trigger] v@[j]).category_id && v@[i].locale@ == v@[j].locale@)),
{
    let mut i: usize = 0;
    while i < v.len()
        invariant
            i <= v@.len(),
            forall|a: int, b: int|
                0 <= a < b < v@.len() && a < i ==> !((#[trigger] v@[a]).category_id == (
                #[trigger] v@[b]).category_id && v@[a].locale@ == v@[b].locale@),
        decreases v@.len() - i,
    {
        let li = chars_of(v[i].locale.as_str());
        let mut j: usize = i + 1;
        while j < v.len()
            invariant
                i < j <= v@.len(),
                li@ == v@[i as int].locale@,
                forall|b: int|
                    i < b < j ==> !(v@[i as int].category_id == (#[trigger] v@[b]).category_id
                        && v@[i as int].locale@ == v@[b].locale@),
            decreases v@.len() - j,
        {
            if v[i].category_id == v[j].category_id {
                let lj = chars_of(v[j].locale.as_str());
                if chars_eq(&li, &lj) {
                    proof {
                        assert(v@[i as int].category_id == v@[j as int].category_id
                            && v@[i as int].locale@ == v@[j as int].locale@);
                    }
                    return false;
                }
            }
            j += 1;
        }
        i += 1;
    }
    true
}

/// Whether no product has two translations for one locale.
fn prod_translations_unique(v: &Vec<ProductTranslation>) -> (r: bool)
    ensures
        r == (forall|i: int, j: int|
            0 <= i < j < v@.len() ==> !((#[trigger] v@[i]).product_id == (
            #[trigger] v@[j]).product_id && v@[i].locale@ == v@[j].locale@)),
{
    let mut i: usize = 0;
    while i < v.len()
        invariant
            i <= v@.len(),
            forall|a: int, b: int|
                0 <= a < b < v@.len() && a < i ==> !((#[trigger] v@[a]).product_id == (
                #[trigger] v@[b]).product_id && v@[a].locale@ == v@[b].locale@),
        decreases v@.len() - i,
    {
        let li = chars_of(v[i].locale.as_str());
        let mut j: usize = i + 1;
        while j < v.len()
            invariant
                i < j <= v@.len(),
                li@ == v@[i as int].locale@,
                forall|b: int|
                    i < b < j ==> !(v@[i as int].product_id == (#[trigger] v@[b]).product_id
                        && v@[i as int].locale@ == v@[b].locale@),
            decreases v@.len() - j,
        {
            if v[i].product_id == v[j].product_id {
                let lj = chars_of(v[j].locale.as_str());
                if chars_eq(&li, &lj) {
                    proof {
                        assert(v@[i as int].product_id == v@[j as int].product_id
                            && v@[i as int].locale@ == v@[j as int].locale@);
                    }
                    return false;
                }
            }
            j += 1;
        }
        i += 1;
    }
    true
}

impl Catalog {
    /// Decide `wf` at run time, so that a caller holding rows from an
    /// external store can establish the engine's precondition without
    /// trusting the store's keys.
    pub fn check_wf(&self) -> (r: bool)
        ensures
            r == self.wf(),
    {
        categories_unique(&self.categories) && products_unique(&self.products)
            && cat_translations_unique(&self.category_translations) && prod_translations_unique(
            &self.product_translations,
        )
    }
}

/// One product of the grouped view, with its locale-resolved name.
#[derive(Clone, Debug, PartialEq, Eq)]
pub struct ProductInfo {
    pub id: u128,
    pub name: String,
    pub description: Option<String>,
    pub price_minor: Option<u64>,
    pub code: Option<String>,
    pub slug: Option<String>,
}

/// The mathematical value of a `ProductInfo`.
pub struct ProductInfoView {
    pub id: u128,
    pub name: Seq<char>,
    pub description: Option<Seq<char>>,
    pub price_minor: Option<u64>,
    pub code: Option<Seq<char>>,
    pub slug: Option<Seq<char>>,
}

impl View for ProductInfo {
    type V = ProductInfoView;

    open spec fn view(&self) -> ProductInfoView {
        ProductInfoView {
            id: self.id,
            name: self.name@,
            description: opt_str_view(self.description),
            price_minor: self.price_minor,
            code: opt_str_view(self.code),
            slug: opt_str_view(self.slug),
        }
    }
}

impl DeepView for ProductInfo {
    type V = ProductInfoView;

    open spec fn deep_view(&self) -> ProductInfoView {
        self.view()
    }
}

/// One category of the grouped view together with its ordered products:
/// the unit that is returned to callers and stored in the cache.
#[derive(Clone, Debug, PartialEq, Eq)]
pub struct CategoryWithProducts {
    pub id: u128,
    pub name: String,
    pub order: Option<i32>,
    pub products: Vec<ProductInfo>,
}

/// The mathematical value of a `CategoryWithProducts`.
pub struct CategoryWithProductsView {
    pub id: u128,
    pub name: Seq<char>,
    pub order: Option<i32>,
    pub products: Seq<ProductInfoView>,
}

impl View for CategoryWithProducts {
    type V = CategoryWithProductsView;

    open spec fn view(&self) -> CategoryWithProductsView {
        CategoryWithProductsView {
            id: self.id,
            name: self.name@,
            order: self.order,
            products: self.products.deep_view(),
        }
    }
}

impl DeepView for CategoryWithProducts {
    type V = CategoryWithProductsView;

    open spec fn deep_view(&self) -> CategoryWithProductsView {
        self.view()
    }
}

} // verus!
