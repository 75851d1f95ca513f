//! The cache wire format: a length-prefixed binary serialization of the
//! grouped catalog view, together with its decoder and a proved round trip.
//!
//! Layout: integers are little-endian; a string is its byte length (u64)
//! followed by its UTF-8 bytes; an optional value is a tag byte (0 or 1)
//! followed by the value if present; a list is its element count (u64)
//! followed by the elements. A stored catalog is the list of its groups.
//!
//! `lemma_payload_round_trip` states the property the read-through cache
//! depends on: decoding an encoded result yields that result, field for
//! field, with prices preserved exactly.

use vstd::bytes::{
    spec_u128_from_le_bytes, spec_u128_to_le_bytes, spec_u64_from_le_bytes, spec_u64_to_le_bytes,
    u128_from_le_bytes, u128_to_le_bytes, u64_from_le_bytes, u64_to_le_bytes,
};
use vstd::prelude::*;
use vstd::slice::slice_subrange;
use vstd::string::StrSliceExecFns;
use vstd::utf8::{decode_utf8, encode_utf8, valid_utf8};

use crate::catalog::{
    CategoryWithProducts, CategoryWithProductsView, ProductInfo, ProductInfoView, opt_str_view,
};

verus! {

/// One more than the largest value a length field can carry.
pub open spec fn length_limit() -> int {
    0x1_0000_0000_0000_0000
}

pub open spec fn enc_u64(x: u64) -> Seq<u8> {
    spec_u64_to_le_bytes(x)
}

pub open spec fn enc_u128(x: u128) -> Seq<u8> {
    spec_u128_to_le_bytes(x)
}

/// The signed ordinal shifted into an unsigned value.
pub open spec fn rank_u64(v: i32) -> u64 {
    (v as int + 0x8000_0000) as u64
}

pub open spec fn enc_str(s: Seq<char>) -> Seq<u8> {
    enc_u64(encode_utf8(s).len() as u64) + encode_utf8(s)
}

pub open spec fn enc_opt_str(o: Option<Seq<char>>) -> Seq<u8> {
    match o {
        Option::None => seq![0u8],
        Option::Some(s) => seq![1u8] + enc_str(s),
    }
}

pub open spec fn enc_opt_u64(o: Option<u64>) -> Seq<u8> {
    match o {
        Option::None => seq![0u8],
        Option::Some(x) => seq![1u8] + enc_u64(x),
    }
}

pub open spec fn enc_opt_i32(o: Option<i32>) -> Seq<u8> {
    match o {
        Option::None => seq![0u8],
        Option::Some(v) => seq![1u8] + enc_u64(rank_u64(v)),
    }
}

pub open spec fn enc_product(p: ProductInfoView) -> Seq<u8> {
    enc_u128(p.id) + enc_str(p.name) + enc_opt_str(p.description) + enc_opt_u64(p.price_minor)
        + enc_opt_str(p.code) + enc_opt_str(p.slug)
}

pub open spec fn enc_products(s: Seq<ProductInfoView>) -> Seq<u8>
    decreases s.len(),
{
    if s.len() == 0 {
        Seq::empty()
    } else {
        enc_product(s[0]) + enc_products(s.drop_first())
    }
}

pub open spec fn enc_group(g: CategoryWithProductsView) -> Seq<u8> {
    enc_u128(g.id) + enc_str(g.name) + enc_opt_i32(g.order) + enc_u64(g.products.len() as u64)
        + enc_products(g.products)
}

pub open spec fn enc_groups(s: Seq<CategoryWithProductsView>) -> Seq<u8>
    decreases s.len(),
{
    if s.len() == 0 {
        Seq::empty()
    } else {
        enc_group(s[0]) + enc_groups(s.drop_first())
    }
}

/// The serialized form of a whole grouped result.
pub open spec fn enc_payload(r: Seq<CategoryWithProductsView>) -> Seq<u8> {
    enc_u64(r.len() as u64) + enc_groups(r)
}

/// Every length that the encoding writes fits its u64 field. Values built
/// by executable code always satisfy this.
pub open spec fn enc_ok_str(s: Seq<char>) -> bool {
    encode_utf8(s).len() < length_limit()
}

pub open spec fn enc_ok_opt_str(o: Option<Seq<char>>) -> bool {
    match o {
        Option::None => true,
        Option::Some(s) => enc_ok_str(s),
    }
}

pub open spec fn enc_ok_product(p: ProductInfoView) -> bool {
    enc_ok_str(p.name) && enc_ok_opt_str(p.description) && enc_ok_opt_str(p.code) && enc_ok_opt_str(
        p.slug,
    )
}

pub open spec fn enc_ok_group(g: CategoryWithProductsView) -> bool {
    &&& enc_ok_str(g.name)
    &&& g.products.len() < length_limit()
    &&& forall|j: int| 0 <= j < g.products.len() ==> enc_ok_product(#[trigger] g.products[j])
}

pub open spec fn enc_ok_payload(r: Seq<CategoryWithProductsView>) -> bool {
    &&& r.len() < length_limit()
    &&& forall|i: int| 0 <= i < r.len() ==> enc_ok_group(#[trigger] r[i])
}

pub open spec fn dec_u64(b: Seq<u8>) -> Option<(u64, Seq<u8>)> {
    if b.len() >= 8 {
        Option::Some((spec_u64_from_le_bytes(b.subrange(0, 8)), b.skip(8)))
    } else {
        Option::None
    }
}

pub open spec fn dec_u128(b: Seq<u8>) -> Option<(u128, Seq<u8>)> {
    if b.len() >= 16 {
        Option::Some((spec_u128_from_le_bytes(b.subrange(0, 16)), b.skip(16)))
    } else {
        Option::None
    }
}

pub open spec fn dec_str(b: Seq<u8>) -> Option<(Seq<char>, Seq<u8>)> {
    match dec_u64(b) {
        Option::None => Option::None,
        Option::Some((n, rest)) => if rest.len() >= n && valid_utf8(rest.subrange(0, n as int)) {
            Option::Some((decode_utf8(rest.subrange(0, n as int)), rest.skip(n as int)))
        } else {
            Option::None
        },
    }
}

pub open spec fn dec_opt_str(b: Seq<u8>) -> Option<(Option<Seq<char>>, Seq<u8>)> {
    if b.len() < 1 {
        Option::None
    } else if b[0] == 0u8 {
        Option::Some((Option::None, b.skip(1)))
    } else if b[0] == 1u8 {
        match dec_str(b.skip(1)) {
            Option::None => Option::None,
            Option::Some((s, rest)) => Option::Some((Option::Some(s), rest)),
        }
    } else {
        Option::None
    }
}

pub open spec fn dec_opt_u64(b: Seq<u8>) -> Option<(Option<u64>, Seq<u8>)> {
    if b.len() < 1 {
        Option::None
    } else if b[0] == 0u8 {
        Option::Some((Option::None, b.skip(1)))
    } else if b[0] == 1u8 {
        match dec_u64(b.skip(1)) {
            Option::None => Option::None,
            Option::Some((x, rest)) => Option::Some((Option::Some(x), rest)),
        }
    } else {
        Option::None
    }
}

pub open spec fn dec_opt_i32(b: Seq<u8>) -> Option<(Option<i32>, Seq<u8>)> {
    if b.len() < 1 {
        Option::None
    } else if b[0] == 0u8 {
        Option::Some((Option::None, b.skip(1)))
    } else if b[0] == 1u8 {
        match dec_u64(b.skip(1)) {
            Option::None => Option::None,
            Option::Some((x, rest)) => if x < 0x1_0000_0000u64 {
                Option::Some((Option::Some((x as int - 0x8000_0000) as i32), rest))
            } else {
                Option::None
            },
        }
    } else {
        Option::None
    }
}

pub open spec fn dec_product(b: Seq<u8>) -> Option<(ProductInfoView, Seq<u8>)> {
    match dec_u128(b) {
        Option::None => Option::None,
        Option::Some((id, b1)) => match dec_str(b1) {
            Option::None => Option::None,
            Option::Some((name, b2)) => match dec_opt_str(b2) {
                Option::None => Option::None,
                Option::Some((description, b3)) => match dec_opt_u64(b3) {
                    Option::None => Option::None,
                    Option::Some((price_minor, b4)) => match dec_opt_str(b4) {
                        Option::None => Option::None,
                        Option::Some((code, b5)) => match dec_opt_str(b5) {
                            Option::None => Option::None,
                            Option::Some((slug, b6)) => Option::Some(
                                (
                                    ProductInfoView {
                                        id,
                                        name,
                                        description,
                                        price_minor,
                                        code,
                                        slug,
                                    },
                                    b6,
                                ),
                            ),
                        },
                    },
                },
            },
        },
    }
}

pub open spec fn dec_products(b: Seq<u8>, n: nat) -> Option<(Seq<ProductInfoView>, Seq<u8>)>
    decreases n,
{
    if n == 0 {
        Option::Some((Seq::empty(), b))
    } else {
        match dec_product(b) {
            Option::None => Option::None,
            Option::Some((p, rest)) => match dec_products(rest, (n - 1) as nat) {
                Option::None => Option::None,
                Option::Some((s, rest2)) => Option::Some((seq![p] + s, rest2)),
            },
        }
    }
}

pub open spec fn dec_group(b: Seq<u8>) -> Option<(CategoryWithProductsView, Seq<u8>)> {
    match dec_u128(b) {
        Option::None => Option::None,
        Option::Some((id, b1)) => match dec_str(b1) {
            Option::None => Option::None,
            Option::Some((name, b2)) => match dec_opt_i32(b2) {
                Option::None => Option::None,
                Option::Some((order, b3)) => match dec_u64(b3) {
                    Option::None => Option::None,
                    Option::Some((n, b4)) => match dec_products(b4, n as nat) {
                        Option::None => Option::None,
                        Option::Some((products, b5)) => Option::Some(
                            (CategoryWithProductsView { id, name, order, products }, b5),
                        ),
                    },
                },
            },
        },
    }
}

pub open spec fn dec_groups(b: Seq<u8>, n: nat) -> Option<(
    Seq<CategoryWithProductsView>,
    Seq<u8>,
)>
    decreases n,
{
    if n == 0 {
        Option::Some((Seq::empty(), b))
    } else {
        match dec_group(b) {
            Option::None => Option::None,
            Option::Some((g, rest)) => match dec_groups(rest, (n - 1) as nat) {
                Option::None => Option::None,
                Option::Some((s, rest2)) => Option::Some((seq![g] + s, rest2)),
            },
        }
    }
}

/// The value a stored cache entry stands for, if its bytes decode cleanly
/// and completely.
pub open spec fn dec_payload(b: Seq<u8>) -> Option<Seq<CategoryWithProductsView>> {
    match dec_u64(b) {
        Option::None => Option::None,
        Option::Some((n, rest)) => match dec_groups(rest, n as nat) {
            Option::None => Option::None,
            Option::Some((s, rest2)) => if rest2.len() == 0 {
                Option::Some(s)
            } else {
                Option::None
            },
        },
    }
}

pub proof fn lemma_dec_enc_u64(x: u64, rest: Seq<u8>)
    ensures
        dec_u64(enc_u64(x) + rest) == Option::Some((x, rest)),
{
    vstd::bytes::lemma_auto_spec_u64_to_from_le_bytes();
    let b = enc_u64(x) + rest;
    assert(b.subrange(0, 8) =~= enc_u64(x));
    assert(b.skip(8) =~= rest);
}

pub proof fn lemma_dec_enc_u128(x: u128, rest: Seq<u8>)
    ensures
        dec_u128(enc_u128(x) + rest) == Option::Some((x, rest)),
{
    vstd::bytes::lemma_auto_spec_u128_to_from_le_bytes();
    let b = enc_u128(x) + rest;
    assert(b.subrange(0, 16) =~= enc_u128(x));
    assert(b.skip(16) =~= rest);
}

pub proof fn lemma_dec_enc_str(s: Seq<char>, rest: Seq<u8>)
    requires
        enc_ok_str(s),
    ensures
        dec_str(enc_str(s) + rest) == Option::Some((s, rest)),
{
    let bytes = encode_utf8(s);
    let n = bytes.len() as u64;
    let b = enc_str(s) + rest;
    assert(b =~= enc_u64(n) + (bytes + rest));
    lemma_dec_enc_u64(n, bytes + rest);
    let tail = bytes + rest;
    assert(tail.subrange(0, n as int) =~= bytes);
    vstd::utf8::encode_utf8_valid_utf8(s);
    vstd::utf8::encode_utf8_decode_utf8(s);
    assert(tail.skip(n as int) =~= rest);
}

pub proof fn lemma_dec_enc_opt_str(o: Option<Seq<char>>, rest: Seq<u8>)
    requires
        enc_ok_opt_str(o),
    ensures
        dec_opt_str(enc_opt_str(o) + rest) == Option::Some((o, rest)),
{
    match o {
        Option::None => {
            let b = enc_opt_str(o) + rest;
            assert(b[0] == 0u8);
            assert(b.skip(1) =~= rest);
        },
        Option::Some(s) => {
            let b = enc_opt_str(o) + rest;
            assert(b[0] == 1u8);
            assert(b.skip(1) =~= enc_str(s) + rest);
            lemma_dec_enc_str(s, rest);
        },
    }
}

pub proof fn lemma_dec_enc_opt_u64(o: Option<u64>, rest: Seq<u8>)
    ensures
        dec_opt_u64(enc_opt_u64(o) + rest) == Option::Some((o, rest)),
{
    match o {
        Option::None => {
            let b = enc_opt_u64(o) + rest;
            assert(b[0] == 0u8);
            assert(b.skip(1) =~= rest);
        },
        Option::Some(x) => {
            let b = enc_opt_u64(o) + rest;
            assert(b[0] == 1u8);
            assert(b.skip(1) =~= enc_u64(x) + rest);
            lemma_dec_enc_u64(x, rest);
        },
    }
}

pub proof fn lemma_dec_enc_opt_i32(o: Option<i32>, rest: Seq<u8>)
    ensures
        dec_opt_i32(enc_opt_i32(o) + rest) == Option::Some((o, rest)),
{
    match o {
        Option::None => {
            let b = enc_opt_i32(o) + rest;
            assert(b[0] == 0u8);
            assert(b.skip(1) =~= rest);
        },
        Option::Some(v) => {
            let b = enc_opt_i32(o) + rest;
            assert(b[0] == 1u8);
            assert(b.skip(1) =~= enc_u64(rank_u64(v)) + rest);
            lemma_dec_enc_u64(rank_u64(v), rest);
            assert(rank_u64(v) < 0x1_0000_0000u64);
            assert((rank_u64(v) as int - 0x8000_0000) as i32 == v);
        },
    }
}

#[verifier::rlimit(100)]
pub proof fn lemma_dec_enc_product(p: ProductInfoView, rest: Seq<u8>)
    requires
        enc_ok_product(p),
    ensures
        dec_product(enc_product(p) + rest) == Option::Some((p, rest)),
{
    let b = enc_product(p) + rest;
    let r1 = enc_str(p.name) + (enc_opt_str(p.description) + (enc_opt_u64(p.price_minor) + (
    enc_opt_str(p.code) + (enc_opt_str(p.slug) + rest))));
    assert(b =~= enc_u128(p.id) + r1);
    lemma_dec_enc_u128(p.id, r1);
    let r2 = enc_opt_str(p.description) + (enc_opt_u64(p.price_minor) + (enc_opt_str(p.code) + (
    enc_opt_str(p.slug) + rest)));
    lemma_dec_enc_str(p.name, r2);
    let r3 = enc_opt_u64(p.price_minor) + (enc_opt_str(p.code) + (enc_opt_str(p.slug) + rest));
    lemma_dec_enc_opt_str(p.description, r3);
    let r4 = enc_opt_str(p.code) + (enc_opt_str(p.slug) + rest);
    lemma_dec_enc_opt_u64(p.price_minor, r4);
    let r5 = enc_opt_str(p.slug) + rest;
    lemma_dec_enc_opt_str(p.code, r5);
    lemma_dec_enc_opt_str(p.slug, rest);
}

pub proof fn lemma_dec_enc_products(s: Seq<ProductInfoView>, rest: Seq<u8>)
    requires
        forall|j: int| 0 <= j < s.len() ==> enc_ok_product(#[trigger] s[j]),
    ensures
        dec_products(enc_products(s) + rest, s.len()) == Option::Some((s, rest)),
    decreases s.len(),
{
    if s.len() == 0 {
        assert(enc_products(s) + rest =~= rest);
        assert(Seq::<ProductInfoView>::empty() =~= s);
    } else {
        let b = enc_products(s) + rest;
        assert(b =~= enc_product(s[0]) + (enc_products(s.drop_first()) + rest));
        lemma_dec_enc_product(s[0], enc_products(s.drop_first()) + rest);
        assert(forall|j: int|
            0 <= j < s.drop_first().len() ==> #[trigger] s.drop_first()[j] == s[j + 1]);
        lemma_dec_enc_products(s.drop_first(), rest);
        assert(seq![s[0]] + s.drop_first() =~= s);
    }
}

pub proof fn lemma_dec_enc_group(g: CategoryWithProductsView, rest: Seq<u8>)
    requires
        enc_ok_group(g),
    ensures
        dec_group(enc_group(g) + rest) == Option::Some((g, rest)),
{
    let b = enc_group(g) + rest;
    let r1 = enc_str(g.name) + (enc_opt_i32(g.order) + (enc_u64(g.products.len() as u64) + (
    enc_products(g.products) + rest)));
    assert(b =~= enc_u128(g.id) + r1);
    lemma_dec_enc_u128(g.id, r1);
    let r2 = enc_opt_i32(g.order) + (enc_u64(g.products.len() as u64) + (enc_products(g.products)
        + rest));
    lemma_dec_enc_str(g.name, r2);
    let r3 = enc_u64(g.products.len() as u64) + (enc_products(g.products) + rest);
    lemma_dec_enc_opt_i32(g.order, r3);
    let r4 = enc_products(g.products) + rest;
    lemma_dec_enc_u64(g.products.len() as u64, r4);
    lemma_dec_enc_products(g.products, rest);
    assert(g.products.len() as u64 as nat == g.products.len());
}

#[verifier::rlimit(100)]
pub proof fn lemma_dec_enc_groups(s: Seq<CategoryWithProductsView>, rest: Seq<u8>)
    requires
        forall|i: int| 0 <= i < s.len() ==> enc_ok_group(#[trigger] s[i]),
    ensures
        dec_groups(enc_groups(s) + rest, s.len()) == Option::Some((s, rest)),
    decreases s.len(),
{
    if s.len() == 0 {
        assert(enc_groups(s) + rest =~= rest);
        assert(Seq::<CategoryWithProductsView>::empty() =~= s);
    } else {
        let b = enc_groups(s) + rest;
        assert(b =~= enc_group(s[0]) + (enc_groups(s.drop_first()) + rest));
        lemma_dec_enc_group(s[0], enc_groups(s.drop_first()) + rest);
        assert(forall|j: int|
            0 <= j < s.drop_first().len() ==> #[trigger] s.drop_first()[j] == s[j + 1]);
        lemma_dec_enc_groups(s.drop_first(), rest);
        assert(seq![s[0]] + s.drop_first() =~= s);
    }
}

/// Round trip of the cache wire format: decoding an encoded result yields
/// exactly that result, with no field lost and every price preserved.
pub proof fn lemma_payload_round_trip(r: Seq<CategoryWithProductsView>)
    requires
        enc_ok_payload(r),
    ensures
        dec_payload(enc_payload(r)) == Option::Some(r),
{
    let b = enc_payload(r);
    assert(b =~= enc_u64(r.len() as u64) + (enc_groups(r) + Seq::<u8>::empty()));
    lemma_dec_enc_u64(r.len() as u64, enc_groups(r) + Seq::empty());
    assert(enc_groups(r) + Seq::<u8>::empty() =~= enc_groups(r));
    lemma_dec_enc_groups(r, Seq::empty());
    assert(enc_groups(r) + Seq::<u8>::empty() =~= enc_groups(r) + Seq::<u8>::empty());
    assert(r.len() as u64 as nat == r.len());
}

/// Appending one more element extends its encoding at the end.
proof fn lemma_enc_products_push(s: Seq<ProductInfoView>, x: ProductInfoView)
    ensures
        enc_products(s.push(x)) == enc_products(s) + enc_product(x),
    decreases s.len(),
{
    if s.len() == 0 {
        assert(s.push(x)[0] == x);
        assert(s.push(x).drop_first() =~= Seq::<ProductInfoView>::empty());
        assert(enc_products(s) =~= Seq::<u8>::empty());
        assert(enc_products(s.push(x).drop_first()) =~= Seq::<u8>::empty());
        assert(enc_products(s.push(x)) == enc_product(s.push(x)[0]) + enc_products(
            s.push(x).drop_first(),
        ));
        assert(enc_products(s.push(x)) =~= enc_products(s) + enc_product(x));
    } else {
        assert(s.push(x)[0] == s[0]);
        assert(s.push(x).drop_first() =~= s.drop_first().push(x));
        lemma_enc_products_push(s.drop_first(), x);
        assert(enc_products(s.push(x)) == enc_product(s.push(x)[0]) + enc_products(
            s.push(x).drop_first(),
        ));
        assert(enc_products(s) == enc_product(s[0]) + enc_products(s.drop_first()));
        assert(enc_products(s.push(x)) == enc_product(s[0]) + (enc_products(s.drop_first())
            + enc_product(x)));
        assert(enc_product(s[0]) + (enc_products(s.drop_first()) + enc_product(x)) =~= (enc_product(
            s[0],
        ) + enc_products(s.drop_first())) + enc_product(x));
    }
}

/// Appending one more group extends its encoding at the end.
proof fn lemma_enc_groups_push(s: Seq<CategoryWithProductsView>, x: CategoryWithProductsView)
    ensures
        enc_groups(s.push(x)) == enc_groups(s) + enc_group(x),
    decreases s.len(),
{
    if s.len() == 0 {
        assert(s.push(x)[0] == x);
        assert(s.push(x).drop_first() =~= Seq::<CategoryWithProductsView>::empty());
        assert(enc_groups(s) =~= Seq::<u8>::empty());
        assert(enc_groups(s.push(x).drop_first()) =~= Seq::<u8>::empty());
        assert(enc_groups(s.push(x)) == enc_group(s.push(x)[0]) + enc_groups(
            s.push(x).drop_first(),
        ));
        assert(enc_groups(s.push(x)) =~= enc_groups(s) + enc_group(x));
    } else {
        assert(s.push(x)[0] == s[0]);
        assert(s.push(x).drop_first() =~= s.drop_first().push(x));
        lemma_enc_groups_push(s.drop_first(), x);
        assert(enc_groups(s.push(x)) == enc_group(s.push(x)[0]) + enc_groups(
            s.push(x).drop_first(),
        ));
        assert(enc_groups(s) == enc_group(s[0]) + enc_groups(s.drop_first()));
        assert(enc_groups(s.push(x)) == enc_group(s[0]) + (enc_groups(s.drop_first())
            + enc_group(x)));
        assert(enc_group(s[0]) + (enc_groups(s.drop_first()) + enc_group(x)) =~= (enc_group(s[0])
            + enc_groups(s.drop_first())) + enc_group(x));
    }
}

fn w_u64(out: &mut Vec<u8>, x: u64)
    ensures
        final(out)@ == old(out)@ + enc_u64(x),
{
    let mut bytes = u64_to_le_bytes(x);
    out.append(&mut bytes);
}

fn w_u128(out: &mut Vec<u8>, x: u128)
    ensures
        final(out)@ == old(out)@ + enc_u128(x),
{
    let mut bytes = u128_to_le_bytes(x);
    out.append(&mut bytes);
}

fn w_str(out: &mut Vec<u8>, s: &str)
    ensures
        final(out)@ == old(out)@ + enc_str(s@),
        enc_ok_str(s@),
{
    let mut bytes = s.as_bytes_vec();
    let n = bytes.len();
    proof {
        assert(bytes@ == encode_utf8(s@));
        assert(n == bytes@.len());
    }
    w_u64(out, n as u64);
    out.append(&mut bytes);
}

fn w_opt_str(out: &mut Vec<u8>, o: &Option<String>)
    ensures
        final(out)@ == old(out)@ + enc_opt_str(opt_str_view(*o)),
        enc_ok_opt_str(opt_str_view(*o)),
{
    match o {
        None => {
            out.push(0u8);
            proof {
                assert(final(out)@ =~= old(out)@ + enc_opt_str(opt_str_view(*o)));
            }
        },
        Some(s) => {
            out.push(1u8);
            let ghost mid = out@;
            proof {
                assert(mid =~= old(out)@ + seq![1u8]);
            }
            w_str(out, s.as_str());
            proof {
                assert(final(out)@ =~= old(out)@ + enc_opt_str(opt_str_view(*o)));
            }
        },
    }
}

fn w_opt_u64(out: &mut Vec<u8>, o: Option<u64>)
    ensures
        final(out)@ == old(out)@ + enc_opt_u64(o),
{
    match o {
        None => {
            out.push(0u8);
            proof {
                assert(final(out)@ =~= old(out)@ + enc_opt_u64(o));
            }
        },
        Some(x) => {
            out.push(1u8);
            w_u64(out, x);
            proof {
                assert(final(out)@ =~= old(out)@ + enc_opt_u64(o));
            }
        },
    }
}

fn w_opt_i32(out: &mut Vec<u8>, o: Option<i32>)
    ensures
        final(out)@ == old(out)@ + enc_opt_i32(o),
{
    match o {
        None => {
            out.push(0u8);
            proof {
                assert(final(out)@ =~= old(out)@ + enc_opt_i32(o));
            }
        },
        Some(v) => {
            out.push(1u8);
            let shifted: u64 = (v as i64 + 0x8000_0000i64) as u64;
            proof {
                assert(shifted == rank_u64(v));
            }
            w_u64(out, shifted);
            proof {
                assert(final(out)@ =~= old(out)@ + enc_opt_i32(o));
            }
        },
    }
}

fn w_product(out: &mut Vec<u8>, p: &ProductInfo)
    ensures
        final(out)@ == old(out)@ + enc_product(p@),
        enc_ok_product(p@),
{
    w_u128(out, p.id);
    w_str(out, p.name.as_str());
    w_opt_str(out, &p.description);
    w_opt_u64(out, p.price_minor);
    w_opt_str(out, &p.code);
    w_opt_str(out, &p.slug);
    proof {
        assert(final(out)@ =~= old(out)@ + enc_product(p@));
    }
}

fn w_group(out: &mut Vec<u8>, g: &CategoryWithProducts)
    ensures
        final(out)@ == old(out)@ + enc_group(g@),
        enc_ok_group(g@),
{
    w_u128(out, g.id);
    w_str(out, g.name.as_str());
    w_opt_i32(out, g.order);
    w_u64(out, g.products.len() as u64);
    let ghost head = out@;
    let mut i: usize = 0;
    proof {
        assert(out@ =~= head + enc_products(g.products.deep_view().take(0)));
    }
    while i < g.products.len()
        invariant
            i <= g.products@.len(),
            out@ == head + enc_products(g.products.deep_view().take(i as int)),
            forall|j: int| 0 <= j < i ==> enc_ok_product(#[trigger] g.products.deep_view()[j]),
        decreases g.products@.len() - i,
    {
        w_product(out, &g.products[i]);
        proof {
            assert(g.products.deep_view()[i as int] == g.products@[i as int]@);
            assert(g.products.deep_view().take(i + 1) =~= g.products.deep_view().take(
                i as int,
            ).push(g.products.deep_view()[i as int]));
            lemma_enc_products_push(
                g.products.deep_view().take(i as int),
                g.products.deep_view()[i as int],
            );
            assert(out@ =~= head + enc_products(g.products.deep_view().take(i + 1)));
        }
        i += 1;
    }
    proof {
        assert(g.products.deep_view().take(g.products.deep_view().len() as int)
            =~= g.products.deep_view());
        assert(g@.products == g.products.deep_view());
        assert(final(out)@ =~= old(out)@ + enc_group(g@));
    }
}

/// Serialize a grouped result into the cache wire format.
pub fn encode_payload(r: &Vec<CategoryWithProducts>) -> (out: Vec<u8>)
    ensures
        out@ == enc_payload(r.deep_view()),
        enc_ok_payload(r.deep_view()),
{
    let mut out: Vec<u8> = Vec::new();
    w_u64(&mut out, r.len() as u64);
    let ghost head = out@;
    let mut i: usize = 0;
    proof {
        assert(out@ =~= head + enc_groups(r.deep_view().take(0)));
    }
    while i < r.len()
        invariant
            i <= r@.len(),
            out@ == head + enc_groups(r.deep_view().take(i as int)),
            head == enc_u64(r@.len() as u64),
            forall|j: int| 0 <= j < i ==> enc_ok_group(#[trigger] r.deep_view()[j]),
        decreases r@.len() - i,
    {
        w_group(&mut out, &r[i]);
        proof {
            assert(r.deep_view()[i as int] == r@[i as int]@);
            assert(r.deep_view().take(i + 1) =~= r.deep_view().take(i as int).push(
                r.deep_view()[i as int],
            ));
            lemma_enc_groups_push(r.deep_view().take(i as int), r.deep_view()[i as int]);
            assert(out@ =~= head + enc_groups(r.deep_view().take(i + 1)));
        }
        i += 1;
    }
    proof {
        assert(r.deep_view().take(r.deep_view().len() as int) =~= r.deep_view());
    }
    out
}

/// Relies on std's String::from_utf8: it succeeds exactly on UTF-8 input,
/// and the bytes of the resulting string are the input bytes.
#[verifier::external_body]
fn string_from_utf8(v: Vec<u8>) -> (r: Option<String>)
    ensures
        r is Some <==> valid_utf8(v@),
        r matches Some(s) ==> encode_utf8(s@) == v@,
{
    match String::from_utf8(v) {
        Ok(s) => Some(s),
        Err(_) => None,
    }
}

/// The bytes of `b` from `from` up to `to`, as a fresh vector.
fn sub_vec(b: &Vec<u8>, from: usize, to: usize) -> (r: Vec<u8>)
    requires
        from <= to <= b@.len(),
    ensures
        r@ == b@.subrange(from as int, to as int),
{
    let mut r: Vec<u8> = Vec::new();
    let mut i: usize = from;
    while i < to
        invariant
            from <= i <= to <= b@.len(),
            r@ == b@.subrange(from as int, i as int),
        decreases to - i,
    {
        r.push(b[i]);
        i += 1;
        proof {
            assert(r@ =~= b@.subrange(from as int, i as int));
        }
    }
    r
}

fn r_u64(b: &Vec<u8>, pos: &mut usize) -> (r: Option<u64>)
    requires
        *old(pos) <= b@.len(),
    ensures
        match r {
            Option::Some(x) => *old(pos) <= *final(pos) <= b@.len() && dec_u64(
                b@.skip(*old(pos) as int),
            ) == Option::Some((x, b@.skip(*final(pos) as int))),
            Option::None => dec_u64(b@.skip(*old(pos) as int)) is None && *final(pos) == *old(
                pos,
            ),
        },
{
    if b.len() - *pos >= 8 {
        let s = slice_subrange(b.as_slice(), *pos, *pos + 8);
        let x = u64_from_le_bytes(s);
        proof {
            assert(b@.skip(*pos as int).subrange(0, 8) =~= b@.subrange(
                *pos as int,
                *pos + 8 as int,
            ));
            assert(b@.skip(*pos as int).skip(8) =~= b@.skip(*pos + 8 as int));
        }
        *pos = *pos + 8;
        Some(x)
    } else {
        None
    }
}

fn r_u128(b: &Vec<u8>, pos: &mut usize) -> (r: Option<u128>)
    requires
        *old(pos) <= b@.len(),
    ensures
        match r {
            Option::Some(x) => *old(pos) <= *final(pos) <= b@.len() && dec_u128(
                b@.skip(*old(pos) as int),
            ) == Option::Some((x, b@.skip(*final(pos) as int))),
            Option::None => dec_u128(b@.skip(*old(pos) as int)) is None && *final(pos) == *old(
                pos,
            ),
        },
{
    if b.len() - *pos >= 16 {
        let s = slice_subrange(b.as_slice(), *pos, *pos + 16);
        let x = u128_from_le_bytes(s);
        proof {
            assert(b@.skip(*pos as int).subrange(0, 16) =~= b@.subrange(
                *pos as int,
                *pos + 16 as int,
            ));
            assert(b@.skip(*pos as int).skip(16) =~= b@.skip(*pos + 16 as int));
        }
        *pos = *pos + 16;
        Some(x)
    } else {
        None
    }
}

fn r_str(b: &Vec<u8>, pos: &mut usize) -> (r: Option<String>)
    requires
        *old(pos) <= b@.len(),
    ensures
        match r {
            Option::Some(s) => *old(pos) <= *final(pos) <= b@.len() && dec_str(
                b@.skip(*old(pos) as int),
            ) == Option::Some((s@, b@.skip(*final(pos) as int))),
            Option::None => dec_str(b@.skip(*old(pos) as int)) is None,
        },
{
    let ghost p0 = *pos;
    let n = match r_u64(b, pos) {
        Some(n) => n,
        None => {
            return None;
        },
    };
    if n > (b.len() - *pos) as u64 {
        proof {
            assert(b@.skip(*pos as int).len() < n);
        }
        return None;
    }
    let take = n as usize;
    let bytes = sub_vec(b, *pos, *pos + take);
    proof {
        assert(b@.skip(*pos as int).subrange(0, n as int) =~= b@.subrange(
            *pos as int,
            *pos + take as int,
        ));
        assert(b@.skip(*pos as int).skip(n as int) =~= b@.skip(*pos + take as int));
    }
    let ghost mid = *pos;
    match string_from_utf8(bytes) {
        Some(s) => {
            *pos = *pos + take;
            proof {
                vstd::utf8::encode_utf8_decode_utf8(s@);
                assert(decode_utf8(b@.skip(mid as int).subrange(0, n as int)) == s@);
            }
            Some(s)
        },
        None => {
            proof {
                assert(!valid_utf8(b@.skip(mid as int).subrange(0, n as int)));
            }
            None
        },
    }
}

fn r_tag(b: &Vec<u8>, pos: &mut usize) -> (r: Option<u8>)
    requires
        *old(pos) <= b@.len(),
    ensures
        match r {
            Option::Some(t) => *final(pos) == *old(pos) + 1 && *final(pos) <= b@.len() && b@.skip(
                *old(pos) as int,
            ).len() >= 1 && b@.skip(*old(pos) as int)[0] == t && b@.skip(*old(pos) as int).skip(1)
                == b@.skip(*final(pos) as int),
            Option::None => b@.skip(*old(pos) as int).len() == 0 && *final(pos) == *old(pos),
        },
{
    if *pos < b.len() {
        let t = b[*pos];
        proof {
            assert(b@.skip(*pos as int)[0] == b@[*pos as int]);
            assert(b@.skip(*pos as int).skip(1) =~= b@.skip(*pos + 1 as int));
        }
        *pos = *pos + 1;
        Some(t)
    } else {
        None
    }
}

fn r_opt_str(b: &Vec<u8>, pos: &mut usize) -> (r: Option<Option<String>>)
    requires
        *old(pos) <= b@.len(),
    ensures
        match r {
            Option::Some(o) => *old(pos) <= *final(pos) <= b@.len() && dec_opt_str(
                b@.skip(*old(pos) as int),
            ) == Option::Some((opt_str_view(o), b@.skip(*final(pos) as int))),
            Option::None => dec_opt_str(b@.skip(*old(pos) as int)) is None,
        },
{
    let t = match r_tag(b, pos) {
        Some(t) => t,
        None => {
            return None;
        },
    };
    if t == 0 {
        Some(None)
    } else if t == 1 {
        match r_str(b, pos) {
            Some(s) => Some(Some(s)),
            None => None,
        }
    } else {
        None
    }
}

fn r_opt_u64(b: &Vec<u8>, pos: &mut usize) -> (r: Option<Option<u64>>)
    requires
        *old(pos) <= b@.len(),
    ensures
        match r {
            Option::Some(o) => *old(pos) <= *final(pos) <= b@.len() && dec_opt_u64(
                b@.skip(*old(pos) as int),
            ) == Option::Some((o, b@.skip(*final(pos) as int))),
            Option::None => dec_opt_u64(b@.skip(*old(pos) as int)) is None,
        },
{
    let t = match r_tag(b, pos) {
        Some(t) => t,
        None => {
            return None;
        },
    };
    if t == 0 {
        Some(None)
    } else if t == 1 {
        match r_u64(b, pos) {
            Some(x) => Some(Some(x)),
            None => None,
        }
    } else {
        None
    }
}

fn r_opt_i32(b: &Vec<u8>, pos: &mut usize) -> (r: Option<Option<i32>>)
    requires
        *old(pos) <= b@.len(),
    ensures
        match r {
            Option::Some(o) => *old(pos) <= *final(pos) <= b@.len() && dec_opt_i32(
                b@.skip(*old(pos) as int),
            ) == Option::Some((o, b@.skip(*final(pos) as int))),
            Option::None => dec_opt_i32(b@.skip(*old(pos) as int)) is None,
        },
{
    let t = match r_tag(b, pos) {
        Some(t) => t,
        None => {
            return None;
        },
    };
    if t == 0 {
        Some(None)
    } else if t == 1 {
        match r_u64(b, pos) {
            Some(x) => {
                if x < 0x1_0000_0000u64 {
                    let v = (x as i64 - 0x8000_0000i64) as i32;
                    proof {
                        assert(v as int == x as int - 0x8000_0000);
                        assert((x as int - 0x8000_0000) as i32 == v);
                    }
                    Some(Some(v))
                } else {
                    None
                }
            },
            None => None,
        }
    } else {
        None
    }
}

fn r_product(b: &Vec<u8>, pos: &mut usize) -> (r: Option<ProductInfo>)
    requires
        *old(pos) <= b@.len(),
    ensures
        match r {
            Option::Some(p) => *old(pos) <= *final(pos) <= b@.len() && dec_product(
                b@.skip(*old(pos) as int),
            ) == Option::Some((p@, b@.skip(*final(pos) as int))),
            Option::None => dec_product(b@.skip(*old(pos) as int)) is None,
        },
{
    let id = match r_u128(b, pos) {
        Some(x) => x,
        None => {
            return None;
        },
    };
    let name = match r_str(b, pos) {
        Some(s) => s,
        None => {
            return None;
        },
    };
    let description = match r_opt_str(b, pos) {
        Some(o) => o,
        None => {
            return None;
        },
    };
    let price_minor = match r_opt_u64(b, pos) {
        Some(o) => o,
        None => {
            return None;
        },
    };
    let code = match r_opt_str(b, pos) {
        Some(o) => o,
        None => {
            return None;
        },
    };
    let slug = match r_opt_str(b, pos) {
        Some(o) => o,
        None => {
            return None;
        },
    };
    Some(ProductInfo { id, name, description, price_minor, code, slug })
}

fn r_products(b: &Vec<u8>, pos: &mut usize, n: u64) -> (r: Option<Vec<ProductInfo>>)
    requires
        *old(pos) <= b@.len(),
    ensures
        match r {
            Option::Some(v) => *old(pos) <= *final(pos) <= b@.len() && dec_products(
                b@.skip(*old(pos) as int),
                n as nat,
            ) == Option::Some((v.deep_view(), b@.skip(*final(pos) as int))),
            Option::None => dec_products(b@.skip(*old(pos) as int), n as nat) is None,
        },
    decreases n,
{
    if n == 0 {
        let v: Vec<ProductInfo> = Vec::new();
        proof {
            assert(v.deep_view() =~= Seq::<ProductInfoView>::empty());
        }
        return Some(v);
    }
    let p = match r_product(b, pos) {
        Some(p) => p,
        None => {
            return None;
        },
    };
    let ghost pv = p@;
    let mut rest = match r_products(b, pos, n - 1) {
        Some(v) => v,
        None => {
            return None;
        },
    };
    let ghost rest0 = rest.deep_view();
    rest.insert(0, p);
    proof {
        rest0.insert_ensures(0, pv);
        assert(rest.deep_view() =~= seq![pv] + rest0);
    }
    Some(rest)
}

fn r_group(b: &Vec<u8>, pos: &mut usize) -> (r: Option<CategoryWithProducts>)
    requires
        *old(pos) <= b@.len(),
    ensures
        match r {
            Option::Some(g) => *old(pos) <= *final(pos) <= b@.len() && dec_group(
                b@.skip(*old(pos) as int),
            ) == Option::Some((g@, b@.skip(*final(pos) as int))),
            Option::None => dec_group(b@.skip(*old(pos) as int)) is None,
        },
{
    let id = match r_u128(b, pos) {
        Some(x) => x,
        None => {
            return None;
        },
    };
    let name = match r_str(b, pos) {
        Some(s) => s,
        None => {
            return None;
        },
    };
    let order = match r_opt_i32(b, pos) {
        Some(o) => o,
        None => {
            return None;
        },
    };
    let n = match r_u64(b, pos) {
        Some(x) => x,
        None => {
            return None;
        },
    };
    let products = match r_products(b, pos, n) {
        Some(v) => v,
        None => {
            return None;
        },
    };
    Some(CategoryWithProducts { id, name, order, products })
}

fn r_groups(b: &Vec<u8>, pos: &mut usize, n: u64) -> (r: Option<Vec<CategoryWithProducts>>)
    requires
        *old(pos) <= b@.len(),
    ensures
        match r {
            Option::Some(v) => *old(pos) <= *final(pos) <= b@.len() && dec_groups(
                b@.skip(*old(pos) as int),
                n as nat,
            ) == Option::Some((v.deep_view(), b@.skip(*final(pos) as int))),
            Option::None => dec_groups(b@.skip(*old(pos) as int), n as nat) is None,
        },
    decreases n,
{
    if n == 0 {
        let v: Vec<CategoryWithProducts> = Vec::new();
        proof {
            assert(v.deep_view() =~= Seq::<CategoryWithProductsView>::empty());
        }
        return Some(v);
    }
    let g = match r_group(b, pos) {
        Some(g) => g,
        None => {
            return None;
        },
    };
    let ghost gv = g@;
    let mut rest = match r_groups(b, pos, n - 1) {
        Some(v) => v,
        None => {
            return None;
        },
    };
    let ghost rest0 = rest.deep_view();
    rest.insert(0, g);
    proof {
        rest0.insert_ensures(0, gv);
        assert(rest.deep_view() =~= seq![gv] + rest0);
    }
    Some(rest)
}

/// Parse a stored cache value. A result is returned only if the whole
/// buffer decodes cleanly; anything else is reported as absent, which the
/// cache layer treats as a miss.
pub fn decode_payload(b: &Vec<u8>) -> (r: Option<Vec<CategoryWithProducts>>)
    ensures
        match r {
            Option::Some(v) => dec_payload(b@) == Option::Some(v.deep_view()),
            Option::None => dec_payload(b@) is None,
        },
{
    let mut pos: usize = 0;
    proof {
        assert(b@.skip(0) =~= b@);
    }
    let n = match r_u64(b, &mut pos) {
        Some(x) => x,
        None => {
            return None;
        },
    };
    let v = match r_groups(b, &mut pos, n) {
        Some(v) => v,
        None => {
            return None;
        },
    };
    if pos == b.len() {
        proof {
            assert(b@.skip(pos as int).len() == 0);
        }
        Some(v)
    } else {
        proof {
            assert(b@.skip(pos as int).len() > 0);
        }
        None
    }
}

} // verus!