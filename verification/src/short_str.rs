use vstd::prelude::*;
use vstd::string::StringSliceAdditionalSpecFns;
use vstd::utf8::{decode_utf8, encode_utf8_decode_utf8, encode_utf8_valid_utf8, valid_utf8};

verus! {

/// A string of at most three bytes, stored inline.
#[derive(Debug, Clone, Copy)]
pub struct ShortStr {
    len: u8,
    data: [u8; 3],
}

/// The string that the bytes `v` encode, when they are valid UTF-8
/// (`std::str::from_utf8`, which fails on anything else).
#[verifier::external_body]
fn str_from_utf8(v: &[u8]) -> (r: Option<&str>)
    ensures
        r is Some <==> valid_utf8(v@),
        r is Some ==> r->0.spec_bytes() == v@,
{
    std::str::from_utf8(v).ok()
}

impl ShortStr {
    /// The UTF-8 bytes of the string.
    pub closed spec fn bytes(self) -> Seq<u8> {
        self.data@.subrange(0, self.len as int)
    }

    #[verifier::type_invariant]
    spec fn inv(self) -> bool {
        &&& self.len <= 3
        &&& valid_utf8(self.bytes())
    }

    /// The characters of the string.
    pub closed spec fn view(self) -> Seq<char> {
        decode_utf8(self.bytes())
    }

    /// The string `s`, if it takes at most three bytes.
    pub fn new(s: &str) -> (r: Option<Self>)
        ensures
            r is Some <==> s.spec_bytes().len() <= 3,
            r is Some ==> r->0.view() == s@,
    {
        let bytes = s.as_bytes();
        if bytes.len() > 3 {
            return None;
        }
        let mut data: [u8; 3] = [0, 0, 0];
        let mut i: usize = 0;
        while i < bytes.len()
            invariant
                bytes@ == s.spec_bytes(),
                bytes@.len() <= 3,
                i <= bytes@.len(),
                data@.len() == 3,
                forall|j: int| 0 <= j < i ==> data@[j] == bytes@[j],
            decreases bytes@.len() - i,
        {
            data[i] = bytes[i];
            i = i + 1;
        }
        proof {
            encode_utf8_valid_utf8(s@);
            encode_utf8_decode_utf8(s@);
            assert(data@.subrange(0, bytes@.len() as int) =~= s.spec_bytes());
        }
        Some(ShortStr { len: bytes.len() as u8, data })
    }

    pub fn as_str(&self) -> (r: &str)
        ensures
            r@ == self.view(),
    {
        proof {
            use_type_invariant(self);
        }
        let whole = self.data.as_slice();
        let part = vstd::slice::slice_subrange(whole, 0, self.len as usize);
        match str_from_utf8(part) {
            Some(s) => {
                proof {
                    encode_utf8_decode_utf8(s@);
                }
                s
            },
            None => {
                proof {
                    assert(part@ =~= self.bytes());
                }
                vstd::pervasive::unreached()
            },
        }
    }
}

} // verus!
