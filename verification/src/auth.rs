//! Token extraction for the authentication middleware.
//!
//! The request middleware takes an `Authorization` header value, strips any
//! leading `Bearer ` markers and surrounding blanks, and validates what
//! remains. Validation itself (signature checking) is an external
//! collaborator's job; the extraction of the raw token is verified here.
//! Blanks are the ASCII whitespace characters.

use vstd::prelude::*;
use vstd::string::StrSliceExecFns;

use crate::text::{chars_of, is_blank};

verus! {

/// `s` with every leading repetition of `Bearer ` removed.
pub open spec fn strip_bearer(s: Seq<char>) -> Seq<char>
    decreases s.len(),
{
    if s.len() >= 7 && s.take(7) == "Bearer "@ {
        strip_bearer(s.skip(7))
    } else {
        s
    }
}

/// `s` without leading blanks.
pub open spec fn trim_left(s: Seq<char>) -> Seq<char>
    decreases s.len(),
{
    if s.len() > 0 && is_blank(s[0]) {
        trim_left(s.drop_first())
    } else {
        s
    }
}

/// `s` without trailing blanks.
pub open spec fn trim_right(s: Seq<char>) -> Seq<char>
    decreases s.len(),
{
    if s.len() > 0 && is_blank(s.last()) {
        trim_right(s.drop_last())
    } else {
        s
    }
}

/// The raw token carried by an `Authorization` header value.
pub open spec fn token_of(s: Seq<char>) -> Seq<char> {
    trim_right(trim_left(strip_bearer(s)))
}

/// The marker that gates token validation on catalog-changing routes.
pub struct Authentication;

impl Authentication {
    /// Extract the raw token from an `Authorization` header value.
    pub fn bearer_token<'a>(header: &'a str) -> (r: &'a str)
        ensures
            r@ == token_of(header@),
    {
        let hv = chars_of(header);
        let n = header.unicode_len();
        let mut start: usize = 0;
        proof {
            reveal_strlit("Bearer ");
            assert(header@.skip(0) =~= header@);
        }
        loop
            invariant
                start <= n,
                n == header@.len(),
                hv@ == header@,
                strip_bearer(header@) == strip_bearer(header@.skip(start as int)),
            ensures
                start <= n,
                strip_bearer(header@) == header@.skip(start as int),
            decreases n - start,
        {
            if n - start >= 7 && hv[start] == 'B' && hv[start + 1] == 'e' && hv[start + 2] == 'a'
                && hv[start + 3] == 'r' && hv[start + 4] == 'e' && hv[start + 5] == 'r'
                && hv[start + 6] == ' ' {
                proof {
                    reveal_strlit("Bearer ");
                    assert(header@.skip(start as int).take(7) =~= "Bearer "@);
                    assert(header@.skip(start as int).skip(7) =~= header@.skip(start + 7));
                }
                start = start + 7;
            } else {
                proof {
                    reveal_strlit("Bearer ");
                    let rest = header@.skip(start as int);
                    if rest.len() >= 7 {
                        assert(rest.take(7) != "Bearer "@) by {
                            if rest.take(7) == "Bearer "@ {
                                assert(rest.take(7)[0] == 'B' && rest.take(7)[1] == 'e'
                                    && rest.take(7)[2] == 'a' && rest.take(7)[3] == 'r'
                                    && rest.take(7)[4] == 'e' && rest.take(7)[5] == 'r'
                                    && rest.take(7)[6] == ' ');
                                assert(false);
                            }
                        }
                    }
                }
                break;
            }
        }
        let mut a: usize = start;
        while a < n && crate::text::blank_char(hv[a])
            invariant
                start <= a <= n,
                n == header@.len(),
                hv@ == header@,
                strip_bearer(header@) == header@.skip(start as int),
                trim_left(header@.skip(start as int)) == trim_left(header@.skip(a as int)),
            decreases n - a,
        {
            proof {
                assert(header@.skip(a as int)[0] == header@[a as int]);
                assert(header@.skip(a as int).drop_first() =~= header@.skip(a + 1));
            }
            a += 1;
        }
        proof {
            assert(trim_left(header@.skip(a as int)) == header@.skip(a as int));
            assert(header@.skip(a as int) =~= header@.subrange(a as int, n as int));
        }
        let mut b: usize = n;
        while b > a && crate::text::blank_char(hv[b - 1])
            invariant
                a <= b <= n,
                n == header@.len(),
                hv@ == header@,
                trim_right(header@.subrange(a as int, n as int)) == trim_right(
                    header@.subrange(a as int, b as int),
                ),
            decreases b,
        {
            proof {
                assert(header@.subrange(a as int, b as int).last() == header@[b - 1]);
                assert(header@.subrange(a as int, b as int).drop_last() =~= header@.subrange(
                    a as int,
                    b - 1,
                ));
            }
            b -= 1;
        }
        proof {
            assert(trim_right(header@.subrange(a as int, b as int)) == header@.subrange(
                a as int,
                b as int,
            ));
        }
        header.substring_char(a, b)
    }
}

} // verus!
