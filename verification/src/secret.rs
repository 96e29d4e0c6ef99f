//! A string that is not to be shown in full.
use vstd::prelude::*;
use vstd::string::StringSliceAdditionalSpecFns;
use vstd::utf8::{decode_utf8, encode_utf8, encode_utf8_decode_utf8, is_char_boundary};

verus! {

/// Wrapper for a string to manage a secret value.
#[derive(Clone, Default, PartialEq, Eq, Hash)]
pub struct Secret {
    inner: String,
}

impl View for Secret {
    type V = Seq<char>;

    /// The secret itself.
    closed spec fn view(&self) -> Seq<char> {
        self.inner@
    }
}

/// `n` stars.
pub open spec fn stars(n: nat) -> Seq<char> {
    Seq::new(n, |i: int| '*')
}

/// How many bytes of a secret of `n` bytes are shown at each of its ends:
/// none of a short one, one of a middling one, two of a long one.
pub open spec fn shown(n: nat) -> nat {
    if n < 7 {
        0
    } else if n < 14 {
        1
    } else {
        2
    }
}

/// Whether the ends of `text` that are shown are made of whole characters.
pub open spec fn can_mask(text: Seq<char>) -> bool {
    let bytes = encode_utf8(text);
    let k = shown(bytes.len());
    is_char_boundary(bytes, k as int) && is_char_boundary(bytes, bytes.len() - k)
}

/// `text` with stars in the place of its bytes, but for the ends that are
/// shown.
pub open spec fn masked_text(text: Seq<char>) -> Seq<char> {
    let bytes = encode_utf8(text);
    let n = bytes.len();
    let k = shown(n);
    if k == 0 {
        stars(n)
    } else {
        decode_utf8(bytes.subrange(0, k as int)) + stars((n - 2 * k) as nat) + decode_utf8(
            bytes.subrange(n - k, n as int),
        )
    }
}

/// A string of `n` stars.
fn star_string(n: usize) -> (r: String)
    ensures
        r@ == stars(n as nat),
{
    let mut r = String::new();
    let mut i: usize = 0;
    proof {
        reveal_strlit("*");
        assert("*"@ =~= seq!['*']);
        assert(r@ =~= stars(0));
    }
    while i < n
        invariant
            i <= n,
            r@ == stars(i as nat),
            "*"@ == seq!['*'],
        decreases n - i,
    {
        r.append("*");
        i = i + 1;
        proof {
            assert(r@ =~= stars(i as nat));
        }
    }
    r
}

impl Secret {
    /// The secret that holds `s`.
    pub fn new(s: String) -> (r: Secret)
        ensures
            r@ == s@,
    {
        Secret { inner: s }
    }

    /// Exposes the inner string.
    pub fn expose(&self) -> (r: &str)
        ensures
            r@ == self@,
    {
        self.inner.as_str()
    }

    /// Whether the secret can be shown masked: whether the ends that are
    /// shown are made of whole characters, as they are in every secret of
    /// ASCII characters.
    pub fn can_be_masked(&self) -> (r: bool)
        ensures
            r == can_mask(self@),
    {
        let s = self.inner.as_str();
        let n = s.as_bytes().len();
        let k: usize = if n < 7 {
            0
        } else if n < 14 {
            1
        } else {
            2
        };
        s.is_char_boundary(k) && s.is_char_boundary(n - k)
    }

    /// The secret as it may be shown: stars, between the first and the last
    /// byte of a secret of at least 7 bytes, or the first two and the last
    /// two of one of at least 14.
    pub fn masked(&self) -> (r: String)
        requires
            can_mask(self@),
        ensures
            r@ == masked_text(self@),
    {
        let s = self.inner.as_str();
        let n = s.as_bytes().len();
        if n < 7 {
            star_string(n)
        } else {
            let k: usize = if n < 14 {
                1
            } else {
                2
            };
            let (first, rest) = s.split_at(k);
            let (_, last) = s.split_at(n - k);
            proof {
                encode_utf8_decode_utf8(first@);
                encode_utf8_decode_utf8(last@);
            }
            let mut r = first.to_owned();
            r.append(star_string(n - 2 * k).as_str());
            r.append(last);
            r
        }
    }

    /// The masked secret behind a mark that says what it is.
    pub fn debug_string(&self) -> (r: String)
        requires
            can_mask(self@),
        ensures
            r@ == "[secret] "@ + masked_text(self@),
    {
        let mut r = "[secret] ".to_owned();
        r.append(self.masked().as_str());
        r
    }
}

} // verus!
