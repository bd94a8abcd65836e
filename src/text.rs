use vstd::prelude::*;
use vstd::string::StringSliceAdditionalSpecFns;
use vstd::utf8::{decode_utf8, is_ascii_chars, valid_utf8};

verus! {

/// `data_encoding::DecodeError`, why a text is not base32, carried as an opaque value.
#[verifier::external_type_specification]
#[verifier::external_body]
pub struct ExDecodeError(data_encoding::DecodeError);

/// The padded RFC 4648 base32 text of a byte string.
pub uninterp spec fn base32_of(b: Seq<u8>) -> Seq<char>;

/// What `BASE32.decode` gives for a text: the bytes, or nothing where it refuses it.
pub uninterp spec fn base32_decoded(t: Seq<char>) -> Option<Seq<u8>>;

/// Relies on `data_encoding::BASE32.encode`: the padded base32 text of the bytes, which
/// is ASCII and eight characters for each started block of five bytes (RFC 4648).
/// Its length computation asserts at most `usize::MAX / 512` bytes.
#[verifier::external_body]
pub(crate) fn base32_encode(b: &[u8]) -> (r: String)
    requires
        b@.len() <= usize::MAX / 512,
    ensures
        r@ == base32_of(b@),
        r@.len() == (b@.len() + 4) / 5 * 8,
        is_ascii_chars(r@),
{
    data_encoding::BASE32.encode(b)
}

/// Relies on `data_encoding::BASE32.decode`: its result is a function of the text, and
/// decoding the text that encoding produced gives back the bytes encoded.
/// Its length computation asserts at most `usize::MAX / 8` bytes.
#[verifier::external_body]
pub(crate) fn base32_decode(s: &str) -> (r: Result<Vec<u8>, data_encoding::DecodeError>)
    requires
        s.spec_bytes().len() <= usize::MAX / 8,
    ensures
        match r {
            Ok(v) => base32_decoded(s@) == Some(v@),
            Err(_) => base32_decoded(s@) is None,
        },
        forall|b: Seq<u8>| #[trigger] base32_of(b) == s@ ==> (r is Ok && r->Ok_0@ == b),
{
    data_encoding::BASE32.decode(s.as_bytes())
}

/// Relies on `String::from_utf8`: it succeeds exactly on valid UTF-8, and the
/// string then holds the characters that the bytes encode.
#[verifier::external_body]
pub(crate) fn utf8_text(b: Vec<u8>) -> (r: Option<String>)
    ensures
        match r {
            Some(s) => valid_utf8(b@) && s@ == decode_utf8(b@),
            None => !valid_utf8(b@),
        },
{
    String::from_utf8(b).ok()
}

/// Whether two strings hold the same characters, compared through their UTF-8 bytes.
pub fn text_eq(a: &str, b: &str) -> (r: bool)
    ensures
        r == (a@ == b@),
{
    let x = a.as_bytes();
    let y = b.as_bytes();
    proof {
        vstd::utf8::encode_utf8_decode_utf8(a@);
        vstd::utf8::encode_utf8_decode_utf8(b@);
    }
    if x.len() != y.len() {
        return false;
    }
    let mut i: usize = 0;
    while i < x.len()
        invariant
            i <= x.len() == y.len(),
            x@ == a.spec_bytes(),
            y@ == b.spec_bytes(),
            forall|k: int| 0 <= k < i ==> x@[k] == y@[k],
        decreases x.len() - i,
    {
        if x[i] != y[i] {
            return false;
        }
        i += 1;
    }
    assert(x@ =~= y@);
    true
}

} // verus!
