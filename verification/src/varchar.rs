use vstd::prelude::*;

use vstd::string::StringSliceAdditionalSpecFns;

use crate::bytes::{
    array_of, lemma_array_of, lemma_bytes_order, padded, sized_less, slice_less, slice_same,
};
use crate::field::Field;

verus! {

/// A structure to store bytes of data and the length of the string.
#[derive(Copy, Clone, Debug, PartialOrd, PartialEq, Eq, Hash)]
pub struct Varchar<const N: usize> {
    length: usize,
    bytes: [u8; N],
}

/// The text that std's `String::from_utf8_lossy` reads from these bytes.
pub uninterp spec fn lossy_text(bytes: Seq<u8>) -> Seq<char>;

impl<const N: usize> Varchar<N> {
    /// The number of bytes of the string.
    pub closed spec fn spec_len(&self) -> usize {
        self.length
    }

    /// All `N` bytes of the value.
    pub closed spec fn spec_all_bytes(&self) -> Seq<u8> {
        self.bytes@
    }

    /// The bytes of the string: the first `spec_len()` of the value's bytes,
    /// or all of them where the length says more than there are.
    pub open spec fn spec_text_bytes(&self) -> Seq<u8> {
        if self.spec_len() <= self.spec_all_bytes().len() {
            self.spec_all_bytes().take(self.spec_len() as int)
        } else {
            self.spec_all_bytes()
        }
    }

    /// Creates Varchar from *str*: the string's bytes, then zeros.
    pub fn new(s: &str) -> (r: Self)
        requires
            s.spec_bytes().len() <= N,
        ensures
            r.spec_len() == s.spec_bytes().len(),
            r.spec_all_bytes() == padded(s.spec_bytes(), N as nat),
            r.spec_text_bytes() == s.spec_bytes(),
    {
        let b = s.as_bytes();
        let length = b.len();
        let mut bytes = [0u8; N];
        let mut i: usize = 0;
        while i < length
            invariant
                length == b@.len(),
                length <= N,
                i <= length,
                forall|j: int| 0 <= j < i ==> bytes@[j] == b@[j],
                forall|j: int| i <= j < N ==> bytes@[j] == 0u8,
            decreases length - i,
        {
            bytes[i] = b[i];
            i += 1;
        }
        assert(bytes@ =~= padded(b@, N as nat));
        assert(bytes@.take(length as int) =~= b@);
        Self { bytes, length }
    }

    /// The bytes that stand for the value in a block: the length as a
    /// `usize` field, then all `N` bytes.
    pub open spec fn spec_encoded(&self) -> Seq<u8> {
        Field::spec_bytes(self.spec_len()) + self.spec_all_bytes()
    }

    /// The value that a run of `8 + N` bytes of a block stands for.
    pub closed spec fn spec_decoded(encoded: Seq<u8>) -> Self {
        Varchar {
            length: usize::spec_from_bytes(encoded.subrange(0, 8)),
            bytes: array_of(encoded.subrange(8, 8 + N)),
        }
    }

    /// Decoding what a value was encoded to gives the value back.
    pub proof fn lemma_encoding(self)
        ensures
            self.spec_encoded().len() == 8 + N,
            Self::spec_decoded(self.spec_encoded()) == self,
    {
        usize::lemma_round_trip(self.length);
        let encoded = self.spec_encoded();
        assert(encoded.subrange(0, 8) =~= Field::spec_bytes(self.length));
        assert(encoded.subrange(8, 8 + N) =~= self.bytes@);
        lemma_array_of(self.bytes);
    }

    /// The number of bytes of the string.
    pub fn len(&self) -> (length: usize)
        ensures
            length == self.spec_len(),
    {
        self.length
    }

    /// The bytes of the string, without the padding.
    pub fn text_bytes(&self) -> (text: &[u8])
        ensures
            text@ == self.spec_text_bytes(),
    {
        let all = self.bytes.as_slice();
        if self.length <= all.len() {
            let text = vstd::slice::slice_subrange(all, 0, self.length);
            assert(text@ =~= self.spec_text_bytes());
            text
        } else {
            all
        }
    }

    /// The string, read from its bytes. Bytes that are no UTF-8 come out as
    /// the replacement character.
    pub fn to_string(&self) -> (text: String)
        ensures
            text@ == lossy_text(self.spec_text_bytes()),
            vstd::utf8::valid_utf8(self.spec_text_bytes()) ==> text@ == vstd::utf8::decode_utf8(
                self.spec_text_bytes(),
            ),
    {
        utf8_lossy(self.text_bytes())
    }
}

/// std's `String::from_utf8_lossy`, with the result made a `String` of its
/// own. The text is a function of the bytes; for bytes that are valid UTF-8
/// it is, as std documents, the text that they encode.
#[verifier::external_body]
fn utf8_lossy(bytes: &[u8]) -> (text: String)
    ensures
        text@ == lossy_text(bytes@),
        vstd::utf8::valid_utf8(bytes@) ==> text@ == vstd::utf8::decode_utf8(bytes@),
{
    String::from_utf8_lossy(bytes).into_owned()
}

/// As a field of a block the value takes its length, as a `usize`, and then
/// all `N` bytes. Values are ordered by their lengths first, then by their
/// bytes.
impl<const N: usize> Field for Varchar<N> {
    open spec fn spec_width() -> nat {
        (8 + N) as nat
    }

    open spec fn spec_bytes(self) -> Seq<u8> {
        self.spec_encoded()
    }

    open spec fn spec_from_bytes(bytes: Seq<u8>) -> Self {
        Self::spec_decoded(bytes)
    }

    open spec fn spec_less(self, other: Self) -> bool {
        sized_less(self.spec_len(), self.spec_all_bytes(), other.spec_len(), other.spec_all_bytes())
    }

    proof fn lemma_round_trip(x: Self) {
        x.lemma_encoding();
    }

    proof fn lemma_total_order(a: Self, b: Self, c: Self) {
        lemma_bytes_order(a.bytes@, b.bytes@, c.bytes@);
        if a.length == b.length && a.bytes@ == b.bytes@ {
            assert(a.bytes =~= b.bytes);
        }
    }

    fn width() -> (w: usize) {
        8 + N
    }

    fn write(&self, out: &mut Vec<u8>) {
        self.length.write(out);
        let mut bytes = vstd::slice::slice_to_vec(self.bytes.as_slice());
        out.append(&mut bytes);
        assert(out@ =~= old(out)@ + self.spec_encoded());
    }

    /// The length is read from the first eight bytes, and the `N` bytes
    /// that follow them are the bytes of the value.
    fn read(block: &[u8], at: usize) -> (r: Self)
        ensures
            r.spec_len() == usize::spec_from_bytes(block@.subrange(at as int, at + 8)),
            r.spec_all_bytes() == block@.subrange(at + 8, at + 8 + N),
    {
        let end: usize = block.len();
        let ghost encoded = block@.subrange(at as int, at + 8 + N);
        let length = usize::read(block, at);
        assert(block@.subrange(at as int, at + 8) =~= encoded.subrange(0, 8));
        let mut bytes = [0u8; N];
        let mut i: usize = 0;
        while i < N
            invariant
                at + 8 + N <= block@.len(),
                end == block@.len(),
                i <= N,
                encoded == block@.subrange(at as int, at + 8 + N),
                forall|j: int| 0 <= j < i ==> bytes@[j] == encoded[8 + j],
            decreases N - i,
        {
            bytes[i] = block[at + 8 + i];
            i += 1;
        }
        assert(bytes@ =~= encoded.subrange(8, 8 + N));
        assert(bytes@ =~= block@.subrange(at + 8, at + 8 + N));
        proof {
            lemma_array_of(bytes);
        }
        Self { length, bytes }
    }

    fn less(&self, other: &Self) -> (r: bool) {
        if self.length != other.length {
            self.length < other.length
        } else {
            slice_less(self.bytes.as_slice(), other.bytes.as_slice())
        }
    }

    fn same(&self, other: &Self) -> (r: bool) {
        if self.length != other.length {
            false
        } else {
            let r = slice_same(self.bytes.as_slice(), other.bytes.as_slice());
            proof {
                if r {
                    assert(self.bytes =~= other.bytes);
                }
            }
            r
        }
    }
}

} // verus!
