//! Checking that bytes are well-formed UTF-8.
use vstd::prelude::*;
use vstd::utf8::{length_of_first_scalar, pop_first_scalar, valid_first_scalar, valid_utf8};

verus! {

/// Returns the length of the UTF-8 encoding of one scalar that starts at byte `p` of `s`, or
/// zero where no well-formed encoding starts there.
fn scalar_length_at(s: &[u8], p: usize) -> (n: usize)
    requires
        p < s@.len(),
    ensures
        n == if valid_first_scalar(s@.subrange(p as int, s@.len() as int)) {
            length_of_first_scalar(s@.subrange(p as int, s@.len() as int))
        } else {
            0
        },
{
    let ghost sub = s@.subrange(p as int, s@.len() as int);
    let rest = s.len() - p;
    let b0 = s[p];
    assert(sub[0] == b0);
    if b0 <= 0x7f {
        return 1;
    }
    if 0xc0 <= b0 && b0 <= 0xdf {
        if rest < 2 {
            return 0;
        }
        let b1 = s[p + 1];
        assert(sub[1] == b1);
        if !(0x80 <= b1 && b1 <= 0xbf) {
            return 0;
        }
        let cp = (((b0 & 0x1F) as u32) << 6) | ((b1 & 0x3f) as u32);
        return if 0x80 <= cp && !(0xD800 <= cp && cp <= 0xDFFF) { 2 } else { 0 };
    }
    if 0xe0 <= b0 && b0 <= 0xef {
        if rest < 3 {
            return 0;
        }
        let b1 = s[p + 1];
        let b2 = s[p + 2];
        assert(sub[1] == b1 && sub[2] == b2);
        if !(0x80 <= b1 && b1 <= 0xbf && 0x80 <= b2 && b2 <= 0xbf) {
            return 0;
        }
        let cp = (((b0 & 0x0F) as u32) << 12) | (((b1 & 0x3f) as u32) << 6) | ((b2 & 0x3f) as u32);
        return if 0x800 <= cp && !(0xD800 <= cp && cp <= 0xDFFF) { 3 } else { 0 };
    }
    if 0xf0 <= b0 && b0 <= 0xf7 {
        if rest < 4 {
            return 0;
        }
        let b1 = s[p + 1];
        let b2 = s[p + 2];
        let b3 = s[p + 3];
        assert(sub[1] == b1 && sub[2] == b2 && sub[3] == b3);
        if !(0x80 <= b1 && b1 <= 0xbf && 0x80 <= b2 && b2 <= 0xbf && 0x80 <= b3 && b3 <= 0xbf) {
            return 0;
        }
        let cp = (((b0 & 0x07) as u32) << 18) | (((b1 & 0x3f) as u32) << 12) | (((b2 & 0x3f) as u32) << 6) | ((b3
            & 0x3f) as u32);
        return if 0x10000 <= cp && cp <= 0x10ffff && !(0xD800 <= cp && cp <= 0xDFFF) { 4 } else { 0 };
    }
    0
}

/// Returns `true` if `s` is well-formed UTF-8.
pub fn is_valid_utf8(s: &[u8]) -> (result: bool)
    ensures
        result == valid_utf8(s@),
{
    let len = s.len();
    let mut p: usize = 0;
    assert(s@.subrange(0, len as int) =~= s@);
    while p < len
        invariant
            p <= len,
            len == s@.len(),
            valid_utf8(s@) == valid_utf8(s@.subrange(p as int, len as int)),
        decreases len - p,
    {
        let ghost sub = s@.subrange(p as int, len as int);
        let n = scalar_length_at(s, p);
        if n == 0 {
            assert(!valid_utf8(sub));
            return false;
        }
        proof {
            assert(pop_first_scalar(sub) =~= s@.subrange(p + n, len as int));
        }
        p = p + n;
    }
    assert(s@.subrange(len as int, len as int).len() == 0);
    true
}

} // verus!
