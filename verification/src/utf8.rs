//! UTF-8 validity of byte sequences, for checking keys at render time.

use vstd::prelude::*;

verus! {

/// A continuation byte of a multi-byte encoding.
pub open spec fn is_cont(b: u8) -> bool {
    128 <= b && b <= 191
}

/// Well-formed UTF-8: a sequence of one- to four-byte scalar encodings,
/// shortest form only, surrogates and values above U+10FFFF excluded.
pub open spec fn is_utf8(s: Seq<u8>) -> bool
    decreases s.len(),
{
    if s.len() == 0 {
        true
    } else {
        let b0 = s[0];
        if b0 < 128 {
            is_utf8(s.skip(1))
        } else if 194 <= b0 && b0 <= 223 {
            s.len() >= 2 && is_cont(s[1]) && is_utf8(s.skip(2))
        } else if b0 == 224 {
            s.len() >= 3 && 160 <= s[1] && s[1] <= 191 && is_cont(s[2]) && is_utf8(s.skip(3))
        } else if (225 <= b0 && b0 <= 236) || b0 == 238 || b0 == 239 {
            s.len() >= 3 && is_cont(s[1]) && is_cont(s[2]) && is_utf8(s.skip(3))
        } else if b0 == 237 {
            s.len() >= 3 && 128 <= s[1] && s[1] <= 159 && is_cont(s[2]) && is_utf8(s.skip(3))
        } else if b0 == 240 {
            s.len() >= 4 && 144 <= s[1] && s[1] <= 191 && is_cont(s[2]) && is_cont(s[3])
                && is_utf8(s.skip(4))
        } else if 241 <= b0 && b0 <= 243 {
            s.len() >= 4 && is_cont(s[1]) && is_cont(s[2]) && is_cont(s[3]) && is_utf8(s.skip(4))
        } else if b0 == 244 {
            s.len() >= 4 && 128 <= s[1] && s[1] <= 143 && is_cont(s[2]) && is_cont(s[3])
                && is_utf8(s.skip(4))
        } else {
            false
        }
    }
}

/// Decide UTF-8 validity of a byte slice.
#[verifier::loop_isolation(false)]
pub fn check_utf8(s: &[u8]) -> (r: bool)
    ensures
        r == is_utf8(s@),
{
    let n = s.len();
    let mut i: usize = 0;
    proof {
        assert(s@.skip(0) =~= s@);
    }
    while i < n
        invariant
            0 <= i <= n,
            n == s@.len(),
            is_utf8(s@) == is_utf8(s@.skip(i as int)),
        decreases n - i,
    {
        let ghost suf = s@.skip(i as int);
        let b0 = s[i];
        let step: usize;
        if b0 < 128 {
            step = 1;
        } else if 194 <= b0 && b0 <= 223 {
            if n - i < 2 || !(128 <= s[i + 1] && s[i + 1] <= 191) {
                return false;
            }
            step = 2;
        } else if b0 == 224 {
            if n - i < 3 || !(160 <= s[i + 1] && s[i + 1] <= 191) || !(128 <= s[i + 2] && s[i + 2]
                <= 191) {
                return false;
            }
            step = 3;
        } else if (225 <= b0 && b0 <= 236) || b0 == 238 || b0 == 239 {
            if n - i < 3 || !(128 <= s[i + 1] && s[i + 1] <= 191) || !(128 <= s[i + 2] && s[i + 2]
                <= 191) {
                return false;
            }
            step = 3;
        } else if b0 == 237 {
            if n - i < 3 || !(128 <= s[i + 1] && s[i + 1] <= 159) || !(128 <= s[i + 2] && s[i + 2]
                <= 191) {
                return false;
            }
            step = 3;
        } else if b0 == 240 {
            if n - i < 4 || !(144 <= s[i + 1] && s[i + 1] <= 191) || !(128 <= s[i + 2] && s[i + 2]
                <= 191) || !(128 <= s[i + 3] && s[i + 3] <= 191) {
                return false;
            }
            step = 4;
        } else if 241 <= b0 && b0 <= 243 {
            if n - i < 4 || !(128 <= s[i + 1] && s[i + 1] <= 191) || !(128 <= s[i + 2] && s[i + 2]
                <= 191) || !(128 <= s[i + 3] && s[i + 3] <= 191) {
                return false;
            }
            step = 4;
        } else if b0 == 244 {
            if n - i < 4 || !(128 <= s[i + 1] && s[i + 1] <= 143) || !(128 <= s[i + 2] && s[i + 2]
                <= 191) || !(128 <= s[i + 3] && s[i + 3] <= 191) {
                return false;
            }
            step = 4;
        } else {
            return false;
        }
        proof {
            assert(suf.skip(step as int) =~= s@.skip(i + step));
        }
        i = i + step;
    }
    true
}

} // verus!
