//! The locale resolver: from a raw language-preference header to exactly
//! one supported locale code.
//!
//! The header is parsed per the usual negotiation form: spaces are
//! stripped, entries are separated by commas, an entry is a tag optionally
//! followed by `;q=` and a quality value of at most three decimals. The
//! supported tag with the highest quality wins; ties keep the client's
//! order; an entry whose quality does not parse counts as quality zero;
//! tags match the supported set exactly. When nothing matches, or the
//! header is empty or unparseable, the default locale is returned: this
//! function cannot fail.

use vstd::prelude::*;
use vstd::string::StringExecFns;

use crate::text::{
    chars_eq, chars_of, sep_pred, split_char, split_when, strip_spaces, strip_spaces_vec,
};

verus! {

/// The fixed set of supported locale codes.
pub open spec fn is_supported(tag: Seq<char>) -> bool {
    tag == "fr"@ || tag == "en"@ || tag == "zh"@
}

/// The locale used when no supported code matches.
pub open spec fn default_locale() -> Seq<char> {
    "en"@
}

pub open spec fn is_digit(c: char) -> bool {
    '0' <= c && c <= '9'
}

pub open spec fn digit_val(c: char) -> int {
    (c as u32) as int - 48
}

pub open spec fn all_digits(s: Seq<char>) -> bool {
    forall|i: int| 0 <= i < s.len() ==> is_digit(#[trigger] s[i])
}

/// The fractional part of a quality value, in thousandths: up to three
/// digits, missing digits count as zero.
pub open spec fn frac_val(s: Seq<char>) -> int {
    (if s.len() >= 1 {
        digit_val(s[0]) * 100
    } else {
        0
    }) + (if s.len() >= 2 {
        digit_val(s[1]) * 10
    } else {
        0
    }) + (if s.len() >= 3 {
        digit_val(s[2])
    } else {
        0
    })
}

/// A quality value in thousandths: `0`, `1`, or either followed by a point
/// and at most three digits, never above one. Anything else counts as
/// zero.
pub open spec fn parse_qvalue(s: Seq<char>) -> int {
    if s.len() < 1 || s.len() > 5 {
        0
    } else if s[0] != '0' && s[0] != '1' {
        0
    } else if s.len() == 1 {
        digit_val(s[0]) * 1000
    } else if s[1] != '.' {
        0
    } else if !all_digits(s.skip(2)) {
        0
    } else if digit_val(s[0]) * 1000 + frac_val(s.skip(2)) > 1000 {
        0
    } else {
        digit_val(s[0]) * 1000 + frac_val(s.skip(2))
    }
}

/// The quality carried by one `key=value` parameter: only a well-formed
/// pair has one.
pub open spec fn qual_of(s: Seq<char>) -> int {
    let ps = split_when(s, sep_pred('='));
    if ps.len() == 2 {
        parse_qvalue(ps[1])
    } else {
        0
    }
}

/// The language tag of one header entry: everything before the first
/// semicolon.
pub open spec fn item_tag(item: Seq<char>) -> Seq<char> {
    split_when(item, sep_pred(';'))[0]
}

/// The quality of one header entry: one when no parameter follows the tag,
/// else the quality of the first parameter.
pub open spec fn item_quality(item: Seq<char>) -> int {
    let parts = split_when(item, sep_pred(';'));
    if parts.len() >= 2 {
        qual_of(parts[1])
    } else {
        1000
    }
}

/// The best supported entry among the first items: highest quality wins,
/// ties keep the earlier entry.
pub open spec fn best_pref(items: Seq<Seq<char>>) -> Option<(Seq<char>, int)>
    decreases items.len(),
{
    if items.len() == 0 {
        Option::None
    } else {
        let prev = best_pref(items.drop_last());
        let last = items.last();
        if !is_supported(item_tag(last)) {
            prev
        } else {
            match prev {
                Option::None => Option::Some((item_tag(last), item_quality(last))),
                Option::Some((t, q)) => if item_quality(last) > q {
                    Option::Some((item_tag(last), item_quality(last)))
                } else {
                    prev
                },
            }
        }
    }
}

/// The locale selected for a raw header: the best supported entry's tag, or
/// the default.
pub open spec fn resolved_locale(header: Seq<char>) -> Seq<char> {
    match best_pref(split_when(strip_spaces(header), sep_pred(','))) {
        Option::Some((t, q)) => t,
        Option::None => default_locale(),
    }
}

/// Executable quality parsing; agrees with `parse_qvalue`.
fn parse_qvalue_exec(s: &Vec<char>) -> (r: u16)
    ensures
        r as int == parse_qvalue(s@),
{
    if s.len() < 1 || s.len() > 5 {
        return 0;
    }
    if s[0] != '0' && s[0] != '1' {
        return 0;
    }
    let d0: u16 = if s[0] == '1' {
        1
    } else {
        0
    };
    proof {
        assert(d0 as int == digit_val(s@[0]));
    }
    if s.len() == 1 {
        return d0 * 1000;
    }
    if s[1] != '.' {
        return 0;
    }
    let mut k: usize = 2;
    while k < s.len()
        invariant
            2 <= k <= s@.len(),
            forall|j: int| 2 <= j < k ==> is_digit(#[trigger] s@[j]),
        decreases s@.len() - k,
    {
        let c = s[k];
        if !('0' <= c && c <= '9') {
            proof {
                assert(!is_digit(s@[k as int]));
                assert(s@.skip(2)[k - 2] == s@[k as int]);
            }
            return 0;
        }
        k += 1;
    }
    proof {
        assert forall|i: int| 0 <= i < s@.skip(2).len() implies is_digit(#[trigger] s@.skip(2)[i]) by {
            assert(s@.skip(2)[i] == s@[i + 2]);
        }
        assert(all_digits(s@.skip(2)));
    }
    let f1: u16 = if s.len() >= 3 {
        digit_exec(s[2]) * 100
    } else {
        0
    };
    let f2: u16 = if s.len() >= 4 {
        digit_exec(s[3]) * 10
    } else {
        0
    };
    let f3: u16 = if s.len() >= 5 {
        digit_exec(s[4])
    } else {
        0
    };
    proof {
        assert(s@.skip(2).len() == s@.len() - 2);
        if s@.len() >= 3 {
            assert(s@.skip(2)[0] == s@[2]);
        }
        if s@.len() >= 4 {
            assert(s@.skip(2)[1] == s@[3]);
        }
        if s@.len() >= 5 {
            assert(s@.skip(2)[2] == s@[4]);
        }
        assert((f1 + f2 + f3) as int == frac_val(s@.skip(2)));
    }
    let total: u16 = d0 * 1000 + f1 + f2 + f3;
    if total > 1000 {
        0
    } else {
        total
    }
}

/// The value of one decimal digit.
fn digit_exec(c: char) -> (r: u16)
    requires
        is_digit(c),
    ensures
        r as int == digit_val(c),
{
    (c as u32 - 48) as u16
}

/// The quality of one parameter; agrees with `qual_of`.
fn qual_exec(s: &Vec<char>) -> (r: u16)
    ensures
        r as int == qual_of(s@),
{
    let ps = split_char(s, '=');
    proof {
        assert(ps.deep_view().len() == ps@.len());
    }
    if ps.len() == 2 {
        proof {
            assert(ps.deep_view()[1] == ps@[1]@);
        }
        parse_qvalue_exec(&ps[1])
    } else {
        0
    }
}

/// The fixed supported locale codes.
pub fn supported_locales() -> (r: Vec<String>)
    ensures
        r@.len() == 3,
        r@[0]@ == "fr"@ && r@[1]@ == "en"@ && r@[2]@ == "zh"@,
        forall|i: int| 0 <= i < 3 ==> is_supported(#[trigger] r@[i]@),
{
    let mut v: Vec<String> = Vec::new();
    v.push(String::from_str("fr"));
    v.push(String::from_str("en"));
    v.push(String::from_str("zh"));
    v
}

/// Resolve a raw language-preference header to one supported locale code.
/// This function never fails: with no supported match it returns the
/// default locale.
pub fn resolve_locale(header: &str) -> (r: String)
    ensures
        r@ == resolved_locale(header@),
        is_supported(r@),
{
    broadcast use vstd::std_specs::vec::vec_clone_deep_view_proof;

    let hv = chars_of(header);
    let stripped = strip_spaces_vec(&hv);
    let items = split_char(&stripped, ',');
    let fr = chars_of("fr");
    let en = chars_of("en");
    let zh = chars_of("zh");
    let mut have: bool = false;
    let mut best_tag: Vec<char> = Vec::new();
    let mut best_q: u16 = 0;
    let mut i: usize = 0;
    proof {
        assert(items.deep_view().take(0) =~~= Seq::<Seq<char>>::empty());
    }
    while i < items.len()
        invariant
            i <= items@.len(),
            items.deep_view() == split_when(strip_spaces(header@), sep_pred(',')),
            fr@ == "fr"@ && en@ == "en"@ && zh@ == "zh"@,
            !have ==> best_pref(items.deep_view().take(i as int)) is None,
            have ==> best_pref(items.deep_view().take(i as int)) == Option::Some(
                (best_tag@, best_q as int),
            ) && is_supported(best_tag@),
        decreases items@.len() - i,
    {
        proof {
            assert(items.deep_view().take(i + 1).drop_last() =~~= items.deep_view().take(i as int));
            assert(items.deep_view().take(i + 1).last() == items.deep_view()[i as int]);
            assert(items.deep_view()[i as int] == items@[i as int]@);
        }
        let parts = split_char(&items[i], ';');
        proof {
            assert(parts.deep_view() == split_when(items@[i as int]@, sep_pred(';')));
            assert(parts.deep_view().len() == parts@.len());
            assert(parts.deep_view()[0] == parts@[0]@);
            assert(parts@.len() >= 1);
        }
        let tag = &parts[0];
        let supported = chars_eq(tag, &fr) || chars_eq(tag, &en) || chars_eq(tag, &zh);
        proof {
            assert(supported == is_supported(item_tag(items.deep_view()[i as int])));
        }
        let q: u16 = if parts.len() >= 2 {
            proof {
                assert(parts.deep_view()[1] == parts@[1]@);
            }
            qual_exec(&parts[1])
        } else {
            1000
        };
        proof {
            assert(q as int == item_quality(items.deep_view()[i as int]));
        }
        if supported && (!have || q > best_q) {
            best_tag = tag.clone();
            proof {
                assert(best_tag.deep_view() == parts@[0].deep_view());
                assert(best_tag@ =~= parts@[0]@);
            }
            best_q = q;
            have = true;
        }
        i += 1;
    }
    proof {
        assert(items.deep_view().take(items.deep_view().len() as int) =~~= items.deep_view());
    }
    if have {
        if chars_eq(&best_tag, &fr) {
            String::from_str("fr")
        } else if chars_eq(&best_tag, &en) {
            String::from_str("en")
        } else {
            proof {
                assert(best_tag@ == "zh"@);
            }
            String::from_str("zh")
        }
    } else {
        String::from_str("en")
    }
}

} // verus!
