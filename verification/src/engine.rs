//! The catalog query engine: the inner join of the five relations,
//! restricted to one locale and to active products, optionally filtered by
//! search terms, grouped by category and deterministically ordered.
//!
//! Ordering policy: categories are sorted by ordinal ascending with missing
//! ordinals after all present ones, ties broken by identifier; products are
//! sorted by name ascending, ties broken by identifier.
//!
//! The contract of `fetch_grouped` is the predicate `valid_result`, which
//! pins the output down completely: `lemma_result_unique` proves that any
//! two sequences satisfying it are equal.

use vstd::multiset::Multiset;
use vstd::prelude::*;

use crate::catalog::{
    Catalog, CategoryWithProducts, CategoryWithProductsView, ProductInfo, ProductInfoView,
    opt_str_view,
};
use crate::text::{
    chars_eq, chars_le, chars_of, contains_sub, fold_chars, fold_vec, has_sub, lex_le,
    lemma_lex_le_antisym, lemma_lex_le_total, lemma_lex_le_trans,
};

verus! {

/// The category with identifier `cid` has display name `name` for `loc`.
pub open spec fn has_cat_translation(cat: Catalog, cid: u128, loc: Seq<char>, name: Seq<char>) -> bool {
    exists|i: int|
        0 <= i < cat.category_translations@.len()
            && (#[trigger] cat.category_translations@[i]).category_id == cid
            && cat.category_translations@[i].locale@ == loc
            && cat.category_translations@[i].name@ == name
}

/// The product with identifier `pid` has name `name` and description `desc`
/// for `loc`.
pub open spec fn has_prod_translation(
    cat: Catalog,
    pid: u128,
    loc: Seq<char>,
    name: Seq<char>,
    desc: Option<Seq<char>>,
) -> bool {
    exists|i: int|
        0 <= i < cat.product_translations@.len()
            && (#[trigger] cat.product_translations@[i]).product_id == pid
            && cat.product_translations@[i].locale@ == loc
            && cat.product_translations@[i].name@ == name
            && opt_str_view(cat.product_translations@[i].description) == desc
}

/// The link relation joins category `cid` to product `pid`.
pub open spec fn has_link(cat: Catalog, cid: u128, pid: u128) -> bool {
    exists|i: int|
        0 <= i < cat.links@.len() && (#[trigger] cat.links@[i]).category_id == cid
            && cat.links@[i].product_id == pid
}

/// Every term occurs, case-folded, in the product name or in the category
/// name. An empty term list filters nothing.
pub open spec fn matches_terms(terms: Seq<Seq<char>>, pname: Seq<char>, cname: Seq<char>) -> bool {
    forall|k: int|
        0 <= k < terms.len() ==> has_sub(fold_chars(pname), #[trigger] terms[k]) || has_sub(
            fold_chars(cname),
            terms[k],
        )
}

/// Row `i` of the product relation is active and carries the scalar fields
/// of `p`.
pub open spec fn product_row_at(cat: Catalog, p: ProductInfoView, i: int) -> bool {
    &&& 0 <= i < cat.products@.len()
    &&& cat.products@[i].id == p.id
    &&& cat.products@[i].is_active
    &&& cat.products@[i].price_minor == p.price_minor
    &&& opt_str_view(cat.products@[i].code) == p.code
    &&& opt_str_view(cat.products@[i].slug) == p.slug
}

/// `p` is exactly one row of the join for category `cid` (whose display
/// name is `cname`) under locale `loc` and search terms `terms`.
pub open spec fn product_entry(
    cat: Catalog,
    loc: Seq<char>,
    terms: Seq<Seq<char>>,
    cid: u128,
    cname: Seq<char>,
    p: ProductInfoView,
) -> bool {
    &&& exists|i: int| #[trigger] product_row_at(cat, p, i)
    &&& has_link(cat, cid, p.id)
    &&& has_prod_translation(cat, p.id, loc, p.name, p.description)
    &&& matches_terms(terms, p.name, cname)
}

/// Some join row exists for category `cid` with display name `cname`.
pub open spec fn some_entry(
    cat: Catalog,
    loc: Seq<char>,
    terms: Seq<Seq<char>>,
    cid: u128,
    cname: Seq<char>,
) -> bool {
    exists|p: ProductInfoView| #[trigger] product_entry(cat, loc, terms, cid, cname, p)
}

/// Category `cid` appears in the result: it has a translation for `loc` and
/// at least one join row.
pub open spec fn category_qualifies(
    cat: Catalog,
    loc: Seq<char>,
    terms: Seq<Seq<char>>,
    cid: u128,
) -> bool {
    exists|cname: Seq<char>|
        #[trigger] has_cat_translation(cat, cid, loc, cname) && some_entry(
            cat,
            loc,
            terms,
            cid,
            cname,
        )
}

/// The sort rank of an ordinal: missing ordinals rank after all present
/// ones.
pub open spec fn order_rank(o: Option<i32>) -> int {
    match o {
        Option::Some(v) => v as int,
        Option::None => 0x8000_0000,
    }
}

/// The category order: ordinal rank ascending, then identifier.
pub open spec fn cat_le(a: CategoryWithProductsView, b: CategoryWithProductsView) -> bool {
    order_rank(a.order) < order_rank(b.order) || (order_rank(a.order) == order_rank(b.order)
        && a.id <= b.id)
}

/// The product order: name ascending lexicographically, then identifier.
pub open spec fn prod_le(a: ProductInfoView, b: ProductInfoView) -> bool {
    (lex_le(a.name, b.name) && a.name != b.name) || (a.name == b.name && a.id <= b.id)
}

/// One output group is internally correct: its category row and translation
/// exist, and its product list holds exactly the join rows for it, sorted,
/// without duplicate identifiers, and non-empty (an inner join never
/// produces an empty group).
pub open spec fn group_ok(
    cat: Catalog,
    loc: Seq<char>,
    terms: Seq<Seq<char>>,
    g: CategoryWithProductsView,
) -> bool {
    &&& exists|i: int|
        0 <= i < cat.categories@.len() && (#[trigger] cat.categories@[i]).id == g.id
            && cat.categories@[i].order == g.order
    &&& has_cat_translation(cat, g.id, loc, g.name)
    &&& g.products.len() > 0
    &&& forall|j: int|
        0 <= j < g.products.len() ==> product_entry(cat, loc, terms, g.id, g.name, #[trigger] g.products[j])
    &&& forall|p: ProductInfoView|
        #[trigger] product_entry(cat, loc, terms, g.id, g.name, p) ==> g.products.contains(p)
    &&& forall|j: int, k: int|
        0 <= j < k < g.products.len() ==> (#[trigger] g.products[j]).id != (
        #[trigger] g.products[k]).id
    &&& forall|j: int, k: int|
        0 <= j < k < g.products.len() ==> prod_le(#[trigger] g.products[j], #[trigger] g.products[k])
}

/// The full contract of the engine: `r` is the grouped, ordered join for
/// `loc` and `terms`. Together with `Catalog::wf` this determines `r`
/// uniquely (`lemma_result_unique`).
pub open spec fn valid_result(
    cat: Catalog,
    loc: Seq<char>,
    terms: Seq<Seq<char>>,
    r: Seq<CategoryWithProductsView>,
) -> bool {
    &&& forall|i: int| 0 <= i < r.len() ==> group_ok(cat, loc, terms, #[trigger] r[i])
    &&& forall|ci: int|
        0 <= ci < cat.categories@.len() && category_qualifies(
            cat,
            loc,
            terms,
            (#[trigger] cat.categories@[ci]).id,
        ) ==> exists|i: int| 0 <= i < r.len() && (#[trigger] r[i]).id == cat.categories@[ci].id
    &&& forall|i: int, j: int|
        0 <= i < j < r.len() ==> (#[trigger] r[i]).id != (#[trigger] r[j]).id
    &&& forall|i: int, j: int| 0 <= i < j < r.len() ==> cat_le(#[trigger] r[i], #[trigger] r[j])
}

/// Whether the link relation joins `cid` to `pid`; agrees with `has_link`.
fn link_exists(cat: &Catalog, cid: u128, pid: u128) -> (r: bool)
    ensures
        r == has_link(*cat, cid, pid),
{
    let mut i: usize = 0;
    while i < cat.links.len()
        invariant
            i <= cat.links@.len(),
            forall|j: int|
                0 <= j < i ==> !((#[trigger] cat.links@[j]).category_id == cid
                    && cat.links@[j].product_id == pid),
        decreases cat.links@.len() - i,
    {
        if cat.links[i].category_id == cid && cat.links[i].product_id == pid {
            return true;
        }
        i += 1;
    }
    false
}

/// The display name of category `cid` under `loc`, if it has one.
fn find_cat_name(cat: &Catalog, cid: u128, loc: &Vec<char>) -> (r: Option<String>)
    ensures
        match r {
            Option::Some(n) => has_cat_translation(*cat, cid, loc@, n@),
            Option::None => forall|nm: Seq<char>| !has_cat_translation(*cat, cid, loc@, nm),
        },
{
    let mut i: usize = 0;
    while i < cat.category_translations.len()
        invariant
            i <= cat.category_translations@.len(),
            forall|j: int|
                0 <= j < i ==> !((#[trigger] cat.category_translations@[j]).category_id == cid
                    && cat.category_translations@[j].locale@ == loc@),
        decreases cat.category_translations@.len() - i,
    {
        let t = &cat.category_translations[i];
        let tloc = chars_of(t.locale.as_str());
        if t.category_id == cid && chars_eq(&tloc, loc) {
            return Some(t.name.clone());
        }
        i += 1;
    }
    None
}

/// The name and description of product `pid` under `loc`, if translated.
fn find_prod_translation(cat: &Catalog, pid: u128, loc: &Vec<char>) -> (r: Option<(
    String,
    Option<String>,
)>)
    ensures
        match r {
            Option::Some(nd) => has_prod_translation(
                *cat,
                pid,
                loc@,
                nd.0@,
                opt_str_view(nd.1),
            ),
            Option::None => forall|nm: Seq<char>, d: Option<Seq<char>>|
                !has_prod_translation(*cat, pid, loc@, nm, d),
        },
{
    let mut i: usize = 0;
    while i < cat.product_translations.len()
        invariant
            i <= cat.product_translations@.len(),
            forall|j: int|
                0 <= j < i ==> !((#[trigger] cat.product_translations@[j]).product_id == pid
                    && cat.product_translations@[j].locale@ == loc@),
        decreases cat.product_translations@.len() - i,
    {
        let t = &cat.product_translations[i];
        let tloc = chars_of(t.locale.as_str());
        if t.product_id == pid && chars_eq(&tloc, loc) {
            let d = match &t.description {
                Some(s) => Some(s.clone()),
                None => None,
            };
            proof {
                assert(opt_str_view(cat.product_translations@[i as int].description)
                    == opt_str_view(d));
            }
            return Some((t.name.clone(), d));
        }
        i += 1;
    }
    None
}

/// Whether every search term matches one of the two names; agrees with
/// `matches_terms`.
fn term_match(terms: &Vec<Vec<char>>, pname: &Vec<char>, cname: &Vec<char>) -> (r: bool)
    ensures
        r == matches_terms(terms.deep_view(), pname@, cname@),
{
    let fp = fold_vec(pname);
    let fc = fold_vec(cname);
    let mut k: usize = 0;
    while k < terms.len()
        invariant
            k <= terms@.len(),
            fp@ == fold_chars(pname@),
            fc@ == fold_chars(cname@),
            forall|j: int|
                0 <= j < k ==> has_sub(fold_chars(pname@), #[trigger] terms.deep_view()[j])
                    || has_sub(fold_chars(cname@), terms.deep_view()[j]),
        decreases terms@.len() - k,
    {
        proof {
            assert(terms.deep_view()[k as int] == terms@[k as int]@);
        }
        if !contains_sub(&fp, &terms[k]) && !contains_sub(&fc, &terms[k]) {
            return false;
        }
        k += 1;
    }
    true
}

/// The join rows of one category: every active, linked, translated product
/// that passes the search filter, in relation order.
fn collect_products(
    cat: &Catalog,
    loc: &Vec<char>,
    terms: &Vec<Vec<char>>,
    cid: u128,
    cname: &String,
) -> (r: Vec<ProductInfo>)
    requires
        cat.wf(),
    ensures
        forall|j: int|
            0 <= j < r.deep_view().len() ==> product_entry(
                *cat,
                loc@,
                terms.deep_view(),
                cid,
                cname@,
                #[trigger] r.deep_view()[j],
            ),
        forall|p: ProductInfoView|
            product_entry(*cat, loc@, terms.deep_view(), cid, cname@, p) ==> r.deep_view().contains(
                p,
            ),
        forall|j: int, k: int|
            0 <= j < k < r.deep_view().len() ==> (#[trigger] r.deep_view()[j]).id != (
            #[trigger] r.deep_view()[k]).id,
{
    let mut out: Vec<ProductInfo> = Vec::new();
    let ghost mut wits: Seq<int> = Seq::empty();
    let mut pi: usize = 0;
    while pi < cat.products.len()
        invariant
            pi <= cat.products@.len(),
            cat.wf(),
            wits.len() == out.deep_view().len(),
            forall|j: int|
                #![trigger out.deep_view()[j]]
                #![trigger wits[j]]
                0 <= j < out.deep_view().len() ==> 0 <= wits[j] < pi && product_row_at(
                    *cat,
                    out.deep_view()[j],
                    wits[j],
                ),
            forall|j: int, k: int| 0 <= j < k < wits.len() ==> wits[j] < wits[k],
            forall|j: int|
                0 <= j < out.deep_view().len() ==> product_entry(
                    *cat,
                    loc@,
                    terms.deep_view(),
                    cid,
                    cname@,
                    #[trigger] out.deep_view()[j],
                ),
            forall|p: ProductInfoView, i: int|
                #![trigger product_row_at(*cat, p, i)]
                (0 <= i < pi && product_row_at(*cat, p, i) && has_link(*cat, cid, p.id)
                    && has_prod_translation(*cat, p.id, loc@, p.name, p.description)
                    && matches_terms(terms.deep_view(), p.name, cname@)) ==> out.deep_view().contains(p),
        decreases cat.products@.len() - pi,
    {
        let ghost out_before = out.deep_view();
        let p = &cat.products[pi];
        if p.is_active && link_exists(cat, cid, p.id) {
            match find_prod_translation(cat, p.id, loc) {
                Some((pname, desc)) => {
                    let ghost pnamev = pname@;
                    let ghost descv = opt_str_view(desc);
                    let pchars = chars_of(pname.as_str());
                    let cchars = chars_of(cname.as_str());
                    if term_match(terms, &pchars, &cchars) {
                        let code = match &p.code {
                            Some(s) => Some(s.clone()),
                            None => None,
                        };
                        let slug = match &p.slug {
                            Some(s) => Some(s.clone()),
                            None => None,
                        };
                        let rec = ProductInfo {
                            id: p.id,
                            name: pname,
                            description: desc,
                            price_minor: p.price_minor,
                            code,
                            slug,
                        };
                        let ghost recv = rec@;
                        proof {
                            assert(recv.name == pnamev && recv.description == descv);
                            assert(opt_str_view(rec.code) == opt_str_view(
                                cat.products@[pi as int].code,
                            ));
                            assert(opt_str_view(rec.slug) == opt_str_view(
                                cat.products@[pi as int].slug,
                            ));
                            assert(product_row_at(*cat, recv, pi as int));
                        }
                        out.push(rec);
                        proof {
                            wits = wits.push(pi as int);
                            assert(out.deep_view() =~= out_before.push(recv));
                            lemma_collect_step(
                                *cat,
                                loc@,
                                terms.deep_view(),
                                cid,
                                cname@,
                                out_before,
                                recv,
                                pi as int,
                            );
                            assert(forall|j: int|
                                0 <= j < out_before.len() ==> #[trigger] out.deep_view()[j]
                                    == out_before[j]);
                            assert(out.deep_view()[out_before.len() as int] == recv);
                            assert(wits.len() == out.deep_view().len());
                            assert(wits[wits.len() - 1] == pi as int);
                            assert forall|j: int|
                                #![trigger out.deep_view()[j]]
                                0 <= j < out.deep_view().len() implies 0 <= wits[j] < pi + 1
                                && product_row_at(*cat, out.deep_view()[j], wits[j]) by {
                                if j < out_before.len() {
                                    assert(out.deep_view()[j] == out_before[j]);
                                } else {
                                    assert(out.deep_view()[j] == recv);
                                }
                            }
                            assert forall|j: int, k: int|
                                0 <= j < k < wits.len() implies wits[j] < wits[k] by {}
                        }
                    } else {
                        proof {
                            lemma_collect_skip(
                                *cat,
                                loc@,
                                terms.deep_view(),
                                cid,
                                cname@,
                                pi as int,
                                pnamev,
                                descv,
                            );
                        }
                    }
                },
                None => {},
            }
        }
        pi += 1;
    }
    proof {
        assert forall|j: int, k: int|
            0 <= j < k < out.deep_view().len() implies (#[trigger] out.deep_view()[j]).id != (
        #[trigger] out.deep_view()[k]).id by {
            assert(product_row_at(*cat, out.deep_view()[j], wits[j]));
            assert(product_row_at(*cat, out.deep_view()[k], wits[k]));
            assert(wits[j] < wits[k]);
            assert(cat.products@[wits[j]].id != cat.products@[wits[k]].id);
        }
    }
    out
}

/// After pushing the record built from product row `i`, the collection
/// invariants still hold: any entry whose row is `i` equals that record.
proof fn lemma_collect_step(
    cat: Catalog,
    loc: Seq<char>,
    terms: Seq<Seq<char>>,
    cid: u128,
    cname: Seq<char>,
    before: Seq<ProductInfoView>,
    rec: ProductInfoView,
    i: int,
)
    requires
        cat.wf(),
        product_row_at(cat, rec, i),
        has_prod_translation(cat, rec.id, loc, rec.name, rec.description),
    ensures
        forall|p: ProductInfoView|
            (#[trigger] product_row_at(cat, p, i) && has_prod_translation(
                cat,
                p.id,
                loc,
                p.name,
                p.description,
            )) ==> p == rec,
        forall|p: ProductInfoView| before.contains(p) ==> before.push(rec).contains(p),
        before.push(rec).contains(rec),
{
    assert forall|p: ProductInfoView|
        (#[trigger] product_row_at(cat, p, i) && has_prod_translation(
            cat,
            p.id,
            loc,
            p.name,
            p.description,
        )) implies p == rec by {
        assert(p.id == cat.products@[i].id);
        assert(p.id == rec.id);
        assert(p.price_minor == rec.price_minor && p.code == rec.code && p.slug == rec.slug);
        let ti = choose|ti: int|
            0 <= ti < cat.product_translations@.len()
                && (#[trigger] cat.product_translations@[ti]).product_id == p.id
                && cat.product_translations@[ti].locale@ == loc
                && cat.product_translations@[ti].name@ == p.name
                && opt_str_view(cat.product_translations@[ti].description) == p.description;
        let tr = choose|tr: int|
            0 <= tr < cat.product_translations@.len()
                && (#[trigger] cat.product_translations@[tr]).product_id == rec.id
                && cat.product_translations@[tr].locale@ == loc
                && cat.product_translations@[tr].name@ == rec.name
                && opt_str_view(cat.product_translations@[tr].description) == rec.description;
        assert(ti == tr);
    }
    assert forall|p: ProductInfoView| before.contains(p) implies before.push(rec).contains(
        p,
    ) by {
        let j = choose|j: int| 0 <= j < before.len() && before[j] == p;
        assert(before.push(rec)[j] == p);
    }
    assert(before.push(rec)[before.len() as int] == rec);
}

/// A product row whose translated name fails the search filter contributes
/// no entry.
proof fn lemma_collect_skip(
    cat: Catalog,
    loc: Seq<char>,
    terms: Seq<Seq<char>>,
    cid: u128,
    cname: Seq<char>,
    i: int,
    nm: Seq<char>,
    d: Option<Seq<char>>,
)
    requires
        cat.wf(),
        0 <= i < cat.products@.len(),
        has_prod_translation(cat, cat.products@[i].id, loc, nm, d),
        !matches_terms(terms, nm, cname),
    ensures
        forall|p: ProductInfoView|
            (#[trigger] product_row_at(cat, p, i) && has_prod_translation(
                cat,
                p.id,
                loc,
                p.name,
                p.description,
            )) ==> !matches_terms(terms, p.name, cname),
{
    assert forall|p: ProductInfoView|
        (#[trigger] product_row_at(cat, p, i) && has_prod_translation(
            cat,
            p.id,
            loc,
            p.name,
            p.description,
        )) implies !matches_terms(terms, p.name, cname) by {
        let ti = choose|ti: int|
            0 <= ti < cat.product_translations@.len()
                && (#[trigger] cat.product_translations@[ti]).product_id == p.id
                && cat.product_translations@[ti].locale@ == loc
                && cat.product_translations@[ti].name@ == p.name
                && opt_str_view(cat.product_translations@[ti].description) == p.description;
        let tr = choose|tr: int|
            0 <= tr < cat.product_translations@.len()
                && (#[trigger] cat.product_translations@[tr]).product_id == cat.products@[i].id
                && cat.product_translations@[tr].locale@ == loc
                && cat.product_translations@[tr].name@ == nm
                && opt_str_view(cat.product_translations@[tr].description) == d;
        assert(ti == tr);
        assert(p.name == nm);
    }
}

/// `prod_le` is total.
proof fn lemma_prod_le_total(a: ProductInfoView, b: ProductInfoView)
    ensures
        prod_le(a, b) || prod_le(b, a),
{
    lemma_lex_le_total(a.name, b.name);
}

/// `prod_le` is transitive.
proof fn lemma_prod_le_trans(a: ProductInfoView, b: ProductInfoView, c: ProductInfoView)
    requires
        prod_le(a, b),
        prod_le(b, c),
    ensures
        prod_le(a, c),
{
    if a.name == b.name && b.name == c.name {
    } else if a.name == b.name {
    } else if b.name == c.name {
    } else {
        lemma_lex_le_trans(a.name, b.name, c.name);
        if a.name == c.name {
            lemma_lex_le_antisym(a.name, b.name);
        }
    }
}

/// `cat_le` is total.
proof fn lemma_cat_le_total(a: CategoryWithProductsView, b: CategoryWithProductsView)
    ensures
        cat_le(a, b) || cat_le(b, a),
{
}

/// `cat_le` is transitive.
proof fn lemma_cat_le_trans(
    a: CategoryWithProductsView,
    b: CategoryWithProductsView,
    c: CategoryWithProductsView,
)
    requires
        cat_le(a, b),
        cat_le(b, c),
    ensures
        cat_le(a, c),
{
}

/// Inserting into a sequence inserts into its multiset.
proof fn lemma_insert_to_multiset<A>(s: Seq<A>, i: int, x: A)
    requires
        0 <= i <= s.len(),
    ensures
        s.insert(i, x).to_multiset() == s.to_multiset().insert(x),
{
    broadcast use vstd::seq_lib::group_to_multiset_ensures;

    let left = s.subrange(0, i);
    let right = s.subrange(i, s.len() as int);
    assert(s.insert(i, x) =~= left + seq![x] + right);
    assert(s =~= left + right);
    vstd::seq_lib::lemma_multiset_commutative(left + seq![x], right);
    vstd::seq_lib::lemma_multiset_commutative(left, seq![x]);
    vstd::seq_lib::lemma_multiset_commutative(left, right);
    assert(seq![x] =~= Seq::empty().push(x));
    assert(seq![x].to_multiset() =~= Multiset::empty().insert(x));
    assert(s.insert(i, x).to_multiset() =~= s.to_multiset().insert(x));
}

/// Executable product comparison; agrees with `prod_le`.
fn prod_le_exec(a: &ProductInfo, b: &ProductInfo) -> (r: bool)
    ensures
        r == prod_le(a@, b@),
{
    let an = chars_of(a.name.as_str());
    let bn = chars_of(b.name.as_str());
    if chars_eq(&an, &bn) {
        a.id <= b.id
    } else {
        chars_le(&an, &bn)
    }
}

/// Executable category comparison; agrees with `cat_le`.
fn cat_le_exec(a: &CategoryWithProducts, b: &CategoryWithProducts) -> (r: bool)
    ensures
        r == cat_le(a@, b@),
{
    let ra: i64 = match a.order {
        Some(v) => v as i64,
        None => 0x8000_0000,
    };
    let rb: i64 = match b.order {
        Some(v) => v as i64,
        None => 0x8000_0000,
    };
    proof {
        assert(ra as int == order_rank(a@.order));
        assert(rb as int == order_rank(b@.order));
    }
    if ra < rb {
        true
    } else if ra == rb {
        a.id <= b.id
    } else {
        false
    }
}

/// Insertion sort for the products of one group, by `prod_le`. The result
/// is a sorted permutation of the input.
fn sort_products(v: Vec<ProductInfo>) -> (r: Vec<ProductInfo>)
    ensures
        r.deep_view().to_multiset() == v.deep_view().to_multiset(),
        forall|j: int, k: int|
            0 <= j < k < r.deep_view().len() ==> prod_le(
                #[trigger] r.deep_view()[j],
                #[trigger] r.deep_view()[k],
            ),
{
    broadcast use vstd::seq_lib::group_to_multiset_ensures;
    broadcast use vstd::multiset::group_multiset_axioms;

    let ghost whole = v.deep_view();
    let mut rest = v;
    let mut out: Vec<ProductInfo> = Vec::new();
    proof {
        assert(out.deep_view().to_multiset().add(rest.deep_view().to_multiset())
            =~= whole.to_multiset());
    }
    while rest.len() > 0
        invariant
            out.deep_view().to_multiset().add(rest.deep_view().to_multiset())
                == whole.to_multiset(),
            forall|j: int, k: int|
                0 <= j < k < out.deep_view().len() ==> prod_le(
                    #[trigger] out.deep_view()[j],
                    #[trigger] out.deep_view()[k],
                ),
        decreases rest@.len(),
    {
        let ghost rest0 = rest.deep_view();
        let popped = rest.pop();
        let x = match popped {
            Some(x) => x,
            None => {
                proof {
                    assert(false);
                }
                vstd::pervasive::unreached()
            },
        };
        let ghost xv = x@;
        proof {
            assert(rest0 =~= rest.deep_view().push(xv));
            rest.deep_view().to_multiset_ensures();
            assert(rest.deep_view().push(xv).to_multiset() =~= rest.deep_view().to_multiset()
                .insert(xv));
            assert(rest0.to_multiset() == rest.deep_view().to_multiset().insert(xv));
        }
        let ghost out0 = out.deep_view();
        let mut p: usize = 0;
        loop
            invariant
                p <= out.deep_view().len(),
                out.deep_view() == out0,
                forall|j: int| 0 <= j < p ==> prod_le(#[trigger] out.deep_view()[j], x@),
            ensures
                p <= out0.len(),
                forall|j: int| 0 <= j < p ==> prod_le(#[trigger] out0[j], x@),
                p < out0.len() ==> !prod_le(out0[p as int], x@),
            decreases out.deep_view().len() - p,
        {
            if p == out.len() {
                break;
            }
            if !prod_le_exec(&out[p], &x) {
                break;
            }
            p += 1;
        }
        let ghost outv0 = out@;
        out.insert(p, x);
        proof {
            assert(out@ == outv0.insert(p as int, x));
            outv0.insert_ensures(p as int, x);
            out0.insert_ensures(p as int, xv);
            assert forall|j: int| 0 <= j < out.deep_view().len() implies #[trigger] out.deep_view()[j]
                == out0.insert(p as int, xv)[j] by {
                if j < p {
                    assert(out@[j] == outv0[j]);
                    assert(out0.insert(p as int, xv)[j] == out0[j]);
                } else if j == p {
                    assert(out@[j] == x);
                } else {
                    assert(outv0.insert(p as int, x)[(j - 1) + 1] == outv0[j - 1]);
                    assert(out0.insert(p as int, xv)[(j - 1) + 1] == out0[j - 1]);
                }
            }
            assert(out.deep_view() =~= out0.insert(p as int, xv));
            lemma_insert_to_multiset(out0, p as int, xv);
            assert(out.deep_view().to_multiset().add(rest.deep_view().to_multiset()) =~= out0.to_multiset().add(rest0.to_multiset()));
            assert forall|j: int, k: int|
                0 <= j < k < out.deep_view().len() implies prod_le(
                #[trigger] out.deep_view()[j],
                #[trigger] out.deep_view()[k],
            ) by {
                if k < p {
                } else if j == p && k > p {
                    assert(out.deep_view()[j] == xv);
                    assert(out.deep_view()[k] == out0[k - 1]);
                    lemma_prod_le_total(out0[p as int], xv);
                    assert(prod_le(xv, out0[p as int]));
                    if k - 1 > p {
                        lemma_prod_le_trans(xv, out0[p as int], out0[k - 1]);
                    }
                } else if j < p && k == p {
                    assert(out.deep_view()[k] == xv);
                } else if j < p && k > p {
                    assert(out.deep_view()[j] == out0[j]);
                    assert(out.deep_view()[k] == out0[k - 1]);
                    if j == k - 1 {
                        lemma_prod_le_total(out0[p as int], xv);
                    }
                } else if j > p {
                    assert(out.deep_view()[j] == out0[j - 1]);
                    assert(out.deep_view()[k] == out0[k - 1]);
                }
            }
        }
    }
    out
}

/// Insertion sort for the category groups, by `cat_le`. The result
/// is a sorted permutation of the input.
fn sort_groups(v: Vec<CategoryWithProducts>) -> (r: Vec<CategoryWithProducts>)
    ensures
        r.deep_view().to_multiset() == v.deep_view().to_multiset(),
        forall|j: int, k: int|
            0 <= j < k < r.deep_view().len() ==> cat_le(
                #[trigger] r.deep_view()[j],
                #[trigger] r.deep_view()[k],
            ),
{
    broadcast use vstd::seq_lib::group_to_multiset_ensures;
    broadcast use vstd::multiset::group_multiset_axioms;

    let ghost whole = v.deep_view();
    let mut rest = v;
    let mut out: Vec<CategoryWithProducts> = Vec::new();
    proof {
        assert(out.deep_view().to_multiset().add(rest.deep_view().to_multiset())
            =~= whole.to_multiset());
    }
    while rest.len() > 0
        invariant
            out.deep_view().to_multiset().add(rest.deep_view().to_multiset())
                == whole.to_multiset(),
            forall|j: int, k: int|
                0 <= j < k < out.deep_view().len() ==> cat_le(
                    #[trigger] out.deep_view()[j],
                    #[trigger] out.deep_view()[k],
                ),
        decreases rest@.len(),
    {
        let ghost rest0 = rest.deep_view();
        let popped = rest.pop();
        let x = match popped {
            Some(x) => x,
            None => {
                proof {
                    assert(false);
                }
                vstd::pervasive::unreached()
            },
        };
        let ghost xv = x@;
        proof {
            assert(rest0 =~= rest.deep_view().push(xv));
            rest.deep_view().to_multiset_ensures();
            assert(rest.deep_view().push(xv).to_multiset() =~= rest.deep_view().to_multiset()
                .insert(xv));
            assert(rest0.to_multiset() == rest.deep_view().to_multiset().insert(xv));
        }
        let ghost out0 = out.deep_view();
        let mut p: usize = 0;
        loop
            invariant
                p <= out.deep_view().len(),
                out.deep_view() == out0,
                forall|j: int| 0 <= j < p ==> cat_le(#[trigger] out.deep_view()[j], x@),
            ensures
                p <= out0.len(),
                forall|j: int| 0 <= j < p ==> cat_le(#[trigger] out0[j], x@),
                p < out0.len() ==> !cat_le(out0[p as int], x@),
            decreases out.deep_view().len() - p,
        {
            if p == out.len() {
                break;
            }
            if !cat_le_exec(&out[p], &x) {
                break;
            }
            p += 1;
        }
        let ghost outv0 = out@;
        out.insert(p, x);
        proof {
            assert(out@ == outv0.insert(p as int, x));
            outv0.insert_ensures(p as int, x);
            out0.insert_ensures(p as int, xv);
            assert forall|j: int| 0 <= j < out.deep_view().len() implies #[trigger] out.deep_view()[j]
                == out0.insert(p as int, xv)[j] by {
                if j < p {
                    assert(out@[j] == outv0[j]);
                    assert(out0.insert(p as int, xv)[j] == out0[j]);
                } else if j == p {
                    assert(out@[j] == x);
                } else {
                    assert(outv0.insert(p as int, x)[(j - 1) + 1] == outv0[j - 1]);
                    assert(out0.insert(p as int, xv)[(j - 1) + 1] == out0[j - 1]);
                }
            }
            assert(out.deep_view() =~= out0.insert(p as int, xv));
            lemma_insert_to_multiset(out0, p as int, xv);
            assert(out.deep_view().to_multiset().add(rest.deep_view().to_multiset()) =~= out0.to_multiset().add(rest0.to_multiset()));
            assert forall|j: int, k: int|
                0 <= j < k < out.deep_view().len() implies cat_le(
                #[trigger] out.deep_view()[j],
                #[trigger] out.deep_view()[k],
            ) by {
                if k < p {
                } else if j == p && k > p {
                    assert(out.deep_view()[j] == xv);
                    assert(out.deep_view()[k] == out0[k - 1]);
                    lemma_cat_le_total(out0[p as int], xv);
                    assert(cat_le(xv, out0[p as int]));
                    if k - 1 > p {
                        lemma_cat_le_trans(xv, out0[p as int], out0[k - 1]);
                    }
                } else if j < p && k == p {
                    assert(out.deep_view()[k] == xv);
                } else if j < p && k > p {
                    assert(out.deep_view()[j] == out0[j]);
                    assert(out.deep_view()[k] == out0[k - 1]);
                    if j == k - 1 {
                        lemma_cat_le_total(out0[p as int], xv);
                    }
                } else if j > p {
                    assert(out.deep_view()[j] == out0[j - 1]);
                    assert(out.deep_view()[k] == out0[k - 1]);
                }
            }
        }
    }
    out
}


/// Two translations of one category under one locale carry the same name.
proof fn lemma_cat_name_unique(cat: Catalog, cid: u128, loc: Seq<char>, n1: Seq<char>, n2: Seq<char>)
    requires
        cat.wf(),
        has_cat_translation(cat, cid, loc, n1),
        has_cat_translation(cat, cid, loc, n2),
    ensures
        n1 == n2,
{
    let i1 = choose|i: int|
        0 <= i < cat.category_translations@.len()
            && (#[trigger] cat.category_translations@[i]).category_id == cid
            && cat.category_translations@[i].locale@ == loc
            && cat.category_translations@[i].name@ == n1;
    let i2 = choose|i: int|
        0 <= i < cat.category_translations@.len()
            && (#[trigger] cat.category_translations@[i]).category_id == cid
            && cat.category_translations@[i].locale@ == loc
            && cat.category_translations@[i].name@ == n2;
    assert(i1 == i2);
}

/// A permutation preserves both membership and key distinctness.
proof fn lemma_perm_distinct_keys<T>(a: Seq<T>, b: Seq<T>, key: spec_fn(T) -> u128)
    requires
        a.to_multiset() == b.to_multiset(),
        forall|i: int, j: int| 0 <= i < j < a.len() ==> key(a[i]) != key(a[j]),
    ensures
        forall|x: T| a.contains(x) <==> b.contains(x),
        forall|i: int, j: int| 0 <= i < j < b.len() ==> key(b[i]) != key(b[j]),
{
    a.to_multiset_ensures();
    b.to_multiset_ensures();
    assert forall|x: T| a.contains(x) <==> b.contains(x) by {
        assert(a.contains(x) <==> a.to_multiset().count(x) > 0);
        assert(b.contains(x) <==> b.to_multiset().count(x) > 0);
    }
    assert(a.no_duplicates()) by {
        assert forall|i: int, j: int| 0 <= i < a.len() && 0 <= j < a.len() && i != j implies a[i]
            != a[j] by {
            if i < j {
                assert(key(a[i]) != key(a[j]));
            } else {
                assert(key(a[j]) != key(a[i]));
            }
        }
    }
    a.lemma_multiset_has_no_duplicates();
    assert forall|x: T| b.to_multiset().contains(x) implies b.to_multiset().count(x) == 1 by {
        assert(a.to_multiset().count(x) == b.to_multiset().count(x));
    }
    b.lemma_multiset_has_no_duplicates_conv();
    assert forall|i: int, j: int| 0 <= i < j < b.len() implies key(b[i]) != key(b[j]) by {
        assert(b.no_duplicates());
        assert(b[i] != b[j]);
        assert(b.contains(b[i]) && b.contains(b[j]));
        assert(a.contains(b[i]) && a.contains(b[j]));
        let ia = choose|ia: int| 0 <= ia < a.len() && a[ia] == b[i];
        let ja = choose|ja: int| 0 <= ja < a.len() && a[ja] == b[j];
        assert(ia != ja);
        if ia < ja {
            assert(key(a[ia]) != key(a[ja]));
        } else {
            assert(key(a[ja]) != key(a[ia]));
        }
    }
}

/// The search terms of an optional raw search text. An absent text and a
/// blank text alike yield no terms.
pub open spec fn spec_search_terms(search: Option<&str>) -> Seq<Seq<char>> {
    match search {
        Option::Some(s) => crate::text::terms_of(s@),
        Option::None => Seq::empty(),
    }
}

/// The catalog query engine. Joins the five relations for `locale`, keeps
/// active products whose names pass the search terms, groups rows by
/// category, and orders everything deterministically.
#[verifier::rlimit(80)]
pub fn fetch_grouped(cat: &Catalog, locale: &str, search: Option<&str>) -> (r: Vec<
    CategoryWithProducts,
>)
    requires
        cat.wf(),
    ensures
        valid_result(*cat, locale@, spec_search_terms(search), r.deep_view()),
{
    let loc = chars_of(locale);
    let terms: Vec<Vec<char>> = match search {
        Some(s) => {
            let sv = chars_of(s);
            crate::text::terms_vec(&sv)
        },
        None => Vec::new(),
    };
    proof {
        assert(terms.deep_view() =~~= spec_search_terms(search));
    }
    let mut groups: Vec<CategoryWithProducts> = Vec::new();
    let ghost mut wits: Seq<int> = Seq::empty();
    let mut ci: usize = 0;
    while ci < cat.categories.len()
        invariant
            ci <= cat.categories@.len(),
            cat.wf(),
            loc@ == locale@,
            terms.deep_view() == spec_search_terms(search),
            wits.len() == groups.deep_view().len(),
            forall|j: int|
                #![trigger groups.deep_view()[j]]
                #![trigger wits[j]]
                0 <= j < groups.deep_view().len() ==> 0 <= wits[j] < ci
                    && (groups.deep_view()[j]).id == cat.categories@[wits[j]].id,
            forall|j: int, k: int| 0 <= j < k < wits.len() ==> wits[j] < wits[k],
            forall|j: int|
                0 <= j < groups.deep_view().len() ==> group_ok(
                    *cat,
                    locale@,
                    spec_search_terms(search),
                    #[trigger] groups.deep_view()[j],
                ),
            forall|c2: int|
                #![trigger cat.categories@[c2]]
                0 <= c2 < ci && category_qualifies(
                    *cat,
                    locale@,
                    spec_search_terms(search),
                    cat.categories@[c2].id,
                ) ==> exists|j: int|
                    0 <= j < groups.deep_view().len() && (#[trigger] groups.deep_view()[j]).id
                        == cat.categories@[c2].id,
        decreases cat.categories@.len() - ci,
    {
        let ghost termsv = spec_search_terms(search);
        let c = &cat.categories[ci];
        let ghost groups0 = groups.deep_view();
        match find_cat_name(cat, c.id, &loc) {
            None => {
                proof {
                    assert(!category_qualifies(*cat, locale@, termsv, c.id));
                }
            },
            Some(name) => {
                let prods = collect_products(cat, &loc, &terms, c.id, &name);
                if prods.len() == 0 {
                    proof {
                        assert forall|cname: Seq<char>|
                            has_cat_translation(*cat, c.id, locale@, cname) implies !some_entry(
                            *cat,
                            locale@,
                            termsv,
                            c.id,
                            cname,
                        ) by {
                            lemma_cat_name_unique(*cat, c.id, locale@, cname, name@);
                            if some_entry(*cat, locale@, termsv, c.id, cname) {
                                let p = choose|p: ProductInfoView|
                                    #[trigger] product_entry(
                                        *cat,
                                        locale@,
                                        termsv,
                                        c.id,
                                        cname,
                                        p,
                                    );
                                assert(prods.deep_view().contains(p));
                                assert(false);
                            }
                        }
                        assert(!category_qualifies(*cat, locale@, termsv, c.id));
                    }
                } else {
                    let ghost prods0 = prods.deep_view();
                    let sorted = sort_products(prods);
                    let ghost sortedv = sorted.deep_view();
                    proof {
                        lemma_perm_distinct_keys(
                            prods0,
                            sortedv,
                            |p: ProductInfoView| p.id,
                        );
                    }
                    let g = CategoryWithProducts { id: c.id, name, order: c.order, products: sorted };
                    let ghost gv = g@;
                    proof {
                        assert(gv.products == sortedv);
                        sortedv.to_multiset_ensures();
                        prods0.to_multiset_ensures();
                        assert(sortedv.len() == sortedv.to_multiset().len());
                        assert(prods0.len() == prods0.to_multiset().len());
                        assert(gv.products.len() == prods0.len());
                        assert forall|j: int|
                            0 <= j < gv.products.len() implies product_entry(
                            *cat,
                            locale@,
                            termsv,
                            gv.id,
                            gv.name,
                            #[trigger] gv.products[j],
                        ) by {
                            assert(sortedv.contains(sortedv[j]));
                            assert(prods0.contains(sortedv[j]));
                            let j0 = choose|j0: int| 0 <= j0 < prods0.len() && prods0[j0] == sortedv[j];
                            assert(product_entry(*cat, locale@, termsv, c.id, name@, prods0[j0]));
                        }
                        assert forall|p: ProductInfoView|
                            #[trigger] product_entry(*cat, locale@, termsv, gv.id, gv.name, p)
                            implies gv.products.contains(p) by {
                            assert(prods0.contains(p));
                        }
                        assert(group_ok(*cat, locale@, termsv, gv));
                    }
                    groups.push(g);
                    proof {
                        wits = wits.push(ci as int);
                        assert(groups.deep_view() =~= groups0.push(gv));
                        assert forall|c2: int|
                            #![trigger cat.categories@[c2]]
                            0 <= c2 < ci + 1 && category_qualifies(
                                *cat,
                                locale@,
                                termsv,
                                cat.categories@[c2].id,
                            ) implies exists|j: int|
                            0 <= j < groups.deep_view().len() && (
                            #[trigger] groups.deep_view()[j]).id == cat.categories@[c2].id by {
                            if c2 < ci {
                                let j0 = choose|j0: int|
                                    0 <= j0 < groups0.len() && (#[trigger] groups0[j0]).id
                                        == cat.categories@[c2].id;
                                assert(groups.deep_view()[j0].id == cat.categories@[c2].id);
                            } else {
                                assert(groups.deep_view()[groups0.len() as int].id
                                    == cat.categories@[c2].id);
                            }
                        }
                    }
                }
            },
        }
        proof {
            if groups.deep_view() == groups0 {
                assert forall|c2: int|
                    #![trigger cat.categories@[c2]]
                    0 <= c2 < ci + 1 && category_qualifies(
                        *cat,
                        locale@,
                        termsv,
                        cat.categories@[c2].id,
                    ) implies exists|j: int|
                    0 <= j < groups.deep_view().len() && (#[trigger] groups.deep_view()[j]).id
                        == cat.categories@[c2].id by {
                    if c2 == ci {
                        assert(!category_qualifies(*cat, locale@, termsv, cat.categories@[c2].id));
                    }
                }
            }
        }
        ci += 1;
    }
    let ghost groupsv = groups.deep_view();
    let r = sort_groups(groups);
    proof {
        lemma_perm_distinct_keys(groupsv, r.deep_view(), |g: CategoryWithProductsView| g.id);
        assert forall|i: int|
            0 <= i < r.deep_view().len() implies group_ok(
            *cat,
            locale@,
            spec_search_terms(search),
            #[trigger] r.deep_view()[i],
        ) by {
            assert(r.deep_view().contains(r.deep_view()[i]));
            assert(groupsv.contains(r.deep_view()[i]));
            let j0 = choose|j0: int| 0 <= j0 < groupsv.len() && groupsv[j0] == r.deep_view()[i];
            assert(group_ok(*cat, locale@, spec_search_terms(search), groupsv[j0]));
        }
        assert forall|c2: int|
            #![trigger cat.categories@[c2]]
            0 <= c2 < cat.categories@.len() && category_qualifies(
                *cat,
                locale@,
                spec_search_terms(search),
                cat.categories@[c2].id,
            ) implies exists|i: int|
            0 <= i < r.deep_view().len() && (#[trigger] r.deep_view()[i]).id
                == cat.categories@[c2].id by {
            let j0 = choose|j0: int|
                0 <= j0 < groupsv.len() && (#[trigger] groupsv[j0]).id == cat.categories@[c2].id;
            assert(groupsv.contains(groupsv[j0]));
            assert(r.deep_view().contains(groupsv[j0]));
            let i0 = choose|i0: int|
                0 <= i0 < r.deep_view().len() && r.deep_view()[i0] == groupsv[j0];
            assert(r.deep_view()[i0].id == cat.categories@[c2].id);
        }
    }
    r
}

/// Two join rows with one identifier, category and name are the same row.
proof fn lemma_entry_determined(
    cat: Catalog,
    loc: Seq<char>,
    terms: Seq<Seq<char>>,
    cid: u128,
    cname: Seq<char>,
    p1: ProductInfoView,
    p2: ProductInfoView,
)
    requires
        cat.wf(),
        product_entry(cat, loc, terms, cid, cname, p1),
        product_entry(cat, loc, terms, cid, cname, p2),
        p1.id == p2.id,
    ensures
        p1 == p2,
{
    let i1 = choose|i: int| #[trigger] product_row_at(cat, p1, i);
    let i2 = choose|i: int| #[trigger] product_row_at(cat, p2, i);
    assert(i1 == i2);
    let t1 = choose|t: int|
        0 <= t < cat.product_translations@.len()
            && (#[trigger] cat.product_translations@[t]).product_id == p1.id
            && cat.product_translations@[t].locale@ == loc
            && cat.product_translations@[t].name@ == p1.name
            && opt_str_view(cat.product_translations@[t].description) == p1.description;
    let t2 = choose|t: int|
        0 <= t < cat.product_translations@.len()
            && (#[trigger] cat.product_translations@[t]).product_id == p2.id
            && cat.product_translations@[t].locale@ == loc
            && cat.product_translations@[t].name@ == p2.name
            && opt_str_view(cat.product_translations@[t].description) == p2.description;
    assert(t1 == t2);
}

/// Two sequences sorted by one order, free of duplicates, with the same
/// members and an antisymmetric order on those members, are equal.
proof fn lemma_sorted_unique_sets<T>(a: Seq<T>, b: Seq<T>, leq: spec_fn(T, T) -> bool)
    requires
        forall|i: int, j: int| 0 <= i < j < a.len() ==> #[trigger] leq(a[i], a[j]),
        forall|i: int, j: int| 0 <= i < j < b.len() ==> #[trigger] leq(b[i], b[j]),
        a.no_duplicates(),
        b.no_duplicates(),
        forall|x: T| a.contains(x) <==> b.contains(x),
        forall|x: T, y: T|
            a.contains(x) && b.contains(y) && #[trigger] leq(x, y) && #[trigger] leq(y, x) ==> x
                == y,
    ensures
        a == b,
    decreases a.len(),
{
    if a.len() == 0 {
        if b.len() > 0 {
            assert(b.contains(b[0]));
            assert(a.contains(b[0]));
            assert(false);
        }
        assert(a =~= b);
    } else {
        assert(a.contains(a[0]));
        assert(b.contains(a[0]));
        assert(b.len() > 0);
        assert(b.contains(b[0]));
        assert(a.contains(b[0]));
        let ia = choose|ia: int| 0 <= ia < a.len() && a[ia] == b[0];
        let jb = choose|jb: int| 0 <= jb < b.len() && b[jb] == a[0];
        if ia == 0 || jb == 0 {
            assert(a[0] == b[0]);
        } else {
            assert(leq(a[0], a[ia]));
            assert(leq(b[0], b[jb]));
            assert(a[0] == b[0]);
        }
        let a1 = a.drop_first();
        let b1 = b.drop_first();
        assert(forall|k: int| 0 <= k < a1.len() ==> a1[k] == a[k + 1]);
        assert(forall|k: int| 0 <= k < b1.len() ==> b1[k] == b[k + 1]);
        assert forall|x: T| a1.contains(x) <==> (a.contains(x) && x != a[0]) by {
            if a1.contains(x) {
                let k = choose|k: int| 0 <= k < a1.len() && a1[k] == x;
                assert(a[k + 1] == x);
                assert(a.contains(x));
                assert(x != a[0]);
            }
            if a.contains(x) && x != a[0] {
                let k = choose|k: int| 0 <= k < a.len() && a[k] == x;
                assert(k >= 1);
                assert(a1[k - 1] == x);
                assert(a1.contains(x));
            }
        }
        assert forall|x: T| b1.contains(x) <==> (b.contains(x) && x != b[0]) by {
            if b1.contains(x) {
                let k = choose|k: int| 0 <= k < b1.len() && b1[k] == x;
                assert(b[k + 1] == x);
                assert(b.contains(x));
                assert(x != b[0]);
            }
            if b.contains(x) && x != b[0] {
                let k = choose|k: int| 0 <= k < b.len() && b[k] == x;
                assert(k >= 1);
                assert(b1[k - 1] == x);
                assert(b1.contains(x));
            }
        }
        assert(a1.no_duplicates());
        assert(b1.no_duplicates());
        assert forall|x: T| a1.contains(x) <==> b1.contains(x) by {}
        lemma_sorted_unique_sets(a1, b1, leq);
        assert forall|k: int| 1 <= k < a.len() implies a[k] == b[k] by {
            assert(a1[k - 1] == a[k]);
            assert(b1[k - 1] == b[k]);
            assert(a1[k - 1] == b1[k - 1]);
        }
        assert(a.len() == b.len());
        assert(a =~= b);
    }
}

/// One category's group is determined by its identifier: any two groups
/// satisfying `group_ok` for the same identifier agree on name, ordinal and
/// products. This is the heart of the determinism of the read path.
proof fn lemma_group_determined(
    cat: Catalog,
    loc: Seq<char>,
    terms: Seq<Seq<char>>,
    g1: CategoryWithProductsView,
    g2: CategoryWithProductsView,
)
    requires
        cat.wf(),
        group_ok(cat, loc, terms, g1),
        group_ok(cat, loc, terms, g2),
        g1.id == g2.id,
    ensures
        g1 == g2,
{
    let i1 = choose|i: int|
        0 <= i < cat.categories@.len() && (#[trigger] cat.categories@[i]).id == g1.id
            && cat.categories@[i].order == g1.order;
    let i2 = choose|i: int|
        0 <= i < cat.categories@.len() && (#[trigger] cat.categories@[i]).id == g2.id
            && cat.categories@[i].order == g2.order;
    assert(i1 == i2);
    assert(g1.order == g2.order);
    lemma_cat_name_unique(cat, g1.id, loc, g1.name, g2.name);
    assert(g1.name == g2.name);
    assert forall|x: ProductInfoView| g1.products.contains(x) implies g2.products.contains(x) by {
        let k = choose|k: int| 0 <= k < g1.products.len() && g1.products[k] == x;
        assert(product_entry(cat, loc, terms, g1.id, g1.name, x));
        assert(product_entry(cat, loc, terms, g2.id, g2.name, x));
    }
    assert forall|x: ProductInfoView| g2.products.contains(x) implies g1.products.contains(x) by {
        let k = choose|k: int| 0 <= k < g2.products.len() && g2.products[k] == x;
        assert(product_entry(cat, loc, terms, g2.id, g2.name, x));
        assert(product_entry(cat, loc, terms, g1.id, g1.name, x));
    }
    assert(g1.products.no_duplicates()) by {
        assert forall|i: int, j: int|
            0 <= i < g1.products.len() && 0 <= j < g1.products.len() && i != j implies g1.products[i]
            != g1.products[j] by {
            if i < j {
                assert(g1.products[i].id != g1.products[j].id);
            } else {
                assert(g1.products[j].id != g1.products[i].id);
            }
        }
    }
    assert(g2.products.no_duplicates()) by {
        assert forall|i: int, j: int|
            0 <= i < g2.products.len() && 0 <= j < g2.products.len() && i != j implies g2.products[i]
            != g2.products[j] by {
            if i < j {
                assert(g2.products[i].id != g2.products[j].id);
            } else {
                assert(g2.products[j].id != g2.products[i].id);
            }
        }
    }
    assert forall|x: ProductInfoView, y: ProductInfoView|
        g1.products.contains(x) && g2.products.contains(y) && #[trigger] prod_le(x, y)
            && #[trigger] prod_le(y, x) implies x == y by {
        if x.name != y.name {
            lemma_lex_le_antisym(x.name, y.name);
        }
        assert(x.name == y.name);
        assert(x.id == y.id);
        let kx = choose|k: int| 0 <= k < g1.products.len() && g1.products[k] == x;
        let ky = choose|k: int| 0 <= k < g2.products.len() && g2.products[k] == y;
        lemma_entry_determined(cat, loc, terms, g1.id, g1.name, x, y);
    }
    lemma_sorted_unique_sets(g1.products, g2.products, |x: ProductInfoView, y: ProductInfoView| prod_le(x, y));
    assert(g1.products == g2.products);
}

/// Determinism of the read path: the engine's contract admits exactly one
/// result for a well-formed catalog, a locale and a term list. Two
/// computations that both satisfy `valid_result` — today's and a repeated
/// one — return the same grouping and ordering.
pub proof fn lemma_result_unique(
    cat: Catalog,
    loc: Seq<char>,
    terms: Seq<Seq<char>>,
    r1: Seq<CategoryWithProductsView>,
    r2: Seq<CategoryWithProductsView>,
)
    requires
        cat.wf(),
        valid_result(cat, loc, terms, r1),
        valid_result(cat, loc, terms, r2),
    ensures
        r1 == r2,
{
    assert forall|x: CategoryWithProductsView| r1.contains(x) implies r2.contains(x) by {
        lemma_result_covers(cat, loc, terms, r1, r2, x);
    }
    assert forall|x: CategoryWithProductsView| r2.contains(x) implies r1.contains(x) by {
        lemma_result_covers(cat, loc, terms, r2, r1, x);
    }
    assert(r1.no_duplicates()) by {
        assert forall|i: int, j: int|
            0 <= i < r1.len() && 0 <= j < r1.len() && i != j implies r1[i] != r1[j] by {
            if i < j {
                assert(r1[i].id != r1[j].id);
            } else {
                assert(r1[j].id != r1[i].id);
            }
        }
    }
    assert(r2.no_duplicates()) by {
        assert forall|i: int, j: int|
            0 <= i < r2.len() && 0 <= j < r2.len() && i != j implies r2[i] != r2[j] by {
            if i < j {
                assert(r2[i].id != r2[j].id);
            } else {
                assert(r2[j].id != r2[i].id);
            }
        }
    }
    assert forall|x: CategoryWithProductsView, y: CategoryWithProductsView|
        r1.contains(x) && r2.contains(y) && #[trigger] cat_le(x, y) && #[trigger] cat_le(y, x)
        implies x == y by {
        assert(x.id == y.id);
        let kx = choose|k: int| 0 <= k < r1.len() && r1[k] == x;
        let ky = choose|k: int| 0 <= k < r2.len() && r2[k] == y;
        lemma_group_determined(cat, loc, terms, x, y);
    }
    lemma_sorted_unique_sets(
        r1,
        r2,
        |x: CategoryWithProductsView, y: CategoryWithProductsView| cat_le(x, y),
    );
}

/// A group of one valid result appears, with identical content, in any
/// other valid result.
proof fn lemma_result_covers(
    cat: Catalog,
    loc: Seq<char>,
    terms: Seq<Seq<char>>,
    r1: Seq<CategoryWithProductsView>,
    r2: Seq<CategoryWithProductsView>,
    x: CategoryWithProductsView,
)
    requires
        cat.wf(),
        valid_result(cat, loc, terms, r1),
        valid_result(cat, loc, terms, r2),
        r1.contains(x),
    ensures
        r2.contains(x),
{
    let k = choose|k: int| 0 <= k < r1.len() && r1[k] == x;
    assert(group_ok(cat, loc, terms, x));
    let ci = choose|i: int|
        0 <= i < cat.categories@.len() && (#[trigger] cat.categories@[i]).id == x.id
            && cat.categories@[i].order == x.order;
    assert(product_entry(cat, loc, terms, x.id, x.name, x.products[0]));
    assert(some_entry(cat, loc, terms, x.id, x.name));
    assert(category_qualifies(cat, loc, terms, cat.categories@[ci].id));
    let j = choose|j: int| 0 <= j < r2.len() && (#[trigger] r2[j]).id == cat.categories@[ci].id;
    lemma_group_determined(cat, loc, terms, x, r2[j]);
    assert(r2[j] == x);
}

/// A catalog with no active product yields the empty result, not an error.
pub proof fn lemma_no_active_products_empty(
    cat: Catalog,
    loc: Seq<char>,
    terms: Seq<Seq<char>>,
    r: Seq<CategoryWithProductsView>,
)
    requires
        valid_result(cat, loc, terms, r),
        forall|i: int| 0 <= i < cat.products@.len() ==> !(#[trigger] cat.products@[i]).is_active,
    ensures
        r.len() == 0,
{
    if r.len() > 0 {
        assert(group_ok(cat, loc, terms, r[0]));
        assert(product_entry(cat, loc, terms, r[0].id, r[0].name, r[0].products[0]));
        let i = choose|i: int| #[trigger] product_row_at(cat, r[0].products[0], i);
        assert(false);
    }
}

/// The pinned ordering policy, in general form: in any valid result, every
/// group with a present ordinal precedes every group without one — missing
/// ordinals sort last, and ordinal ranks never descend.
pub proof fn lemma_missing_ordinals_last(
    cat: Catalog,
    loc: Seq<char>,
    terms: Seq<Seq<char>>,
    r: Seq<CategoryWithProductsView>,
)
    requires
        valid_result(cat, loc, terms, r),
    ensures
        forall|i: int, j: int|
            0 <= i < j < r.len() ==> order_rank((#[trigger] r[i]).order) <= order_rank(
                (#[trigger] r[j]).order,
            ),
        forall|i: int, j: int|
            0 <= i < j < r.len() && (#[trigger] r[i]).order is None ==> (#[trigger] r[j]).order
                is None,
{
    assert forall|i: int, j: int|
        0 <= i < j < r.len() && (#[trigger] r[i]).order is None implies (#[trigger] r[j]).order
        is None by {
        assert(cat_le(r[i], r[j]));
        assert(order_rank(r[i].order) == 0x8000_0000);
        if r[j].order is Some {
            assert(order_rank(r[j].order) <= 0x7FFF_FFFF);
        }
    }
}

/// A search whose terms match no name yields the empty result.
pub proof fn lemma_no_match_empty(
    cat: Catalog,
    loc: Seq<char>,
    terms: Seq<Seq<char>>,
    r: Seq<CategoryWithProductsView>,
)
    requires
        valid_result(cat, loc, terms, r),
        forall|pn: Seq<char>, cn: Seq<char>| !matches_terms(terms, pn, cn),
    ensures
        r.len() == 0,
{
    if r.len() > 0 {
        assert(group_ok(cat, loc, terms, r[0]));
        assert(product_entry(cat, loc, terms, r[0].id, r[0].name, r[0].products[0]));
        assert(matches_terms(terms, r[0].products[0].name, r[0].name));
        assert(false);
    }
}

} // verus!