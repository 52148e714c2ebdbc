use vstd::prelude::*;

use crate::field::Field;

verus! {

/// A structure to store bytes of data and the length.
#[derive(Copy, Clone, Debug, PartialOrd, PartialEq, Eq, Hash, Ord)]
pub struct Bytes<const N: usize> {
    length: usize,
    bytes: [u8; N],
}

/// The text that std's `Debug` formatting gives for a slice of these bytes.
pub uninterp spec fn debug_text(bytes: Seq<u8>) -> Seq<char>;

/// The array that holds the `N` bytes of `bytes`.
pub open spec fn array_of<const N: usize>(bytes: Seq<u8>) -> [u8; N] {
    choose|a: [u8; N]| a@ == bytes
}

/// The array that holds the bytes of an array is that array.
pub proof fn lemma_array_of<const N: usize>(a: [u8; N])
    ensures
        array_of::<N>(a@) == a,
{
    let b = array_of::<N>(a@);
    assert(b@ == a@);
    assert(b =~= a);
}

/// The order of two runs of bytes of one length: at the first place where
/// they differ, the first one has the smaller byte.
pub open spec fn bytes_less(a: Seq<u8>, b: Seq<u8>) -> bool
    decreases a.len(),
{
    if a.len() == 0 || b.len() == 0 {
        false
    } else if a[0] != b[0] {
        a[0] < b[0]
    } else {
        bytes_less(a.skip(1), b.skip(1))
    }
}

/// The order of fixed-width values: by the length first, then by the bytes.
pub open spec fn sized_less(a_len: usize, a: Seq<u8>, b_len: usize, b: Seq<u8>) -> bool {
    a_len < b_len || (a_len == b_len && bytes_less(a, b))
}

/// `bytes_less` is a strict total order on runs of bytes of one length.
pub proof fn lemma_bytes_order(a: Seq<u8>, b: Seq<u8>, c: Seq<u8>)
    requires
        a.len() == b.len(),
        b.len() == c.len(),
    ensures
        !bytes_less(a, a),
        bytes_less(a, b) && bytes_less(b, c) ==> bytes_less(a, c),
        bytes_less(a, b) || bytes_less(b, a) || a == b,
    decreases a.len(),
{
    if a.len() > 0 {
        lemma_bytes_order(a.skip(1), b.skip(1), c.skip(1));
        if a[0] == b[0] && !bytes_less(a, b) && !bytes_less(b, a) {
            assert(a.skip(1) == b.skip(1));
            assert(a =~= seq![a[0]] + a.skip(1));
            assert(b =~= seq![b[0]] + b.skip(1));
        }
    } else {
        assert(a =~= b);
    }
}

/// Whether the bytes of `a` come before those of `b`.
pub fn slice_less(a: &[u8], b: &[u8]) -> (r: bool)
    requires
        a@.len() == b@.len(),
    ensures
        r == bytes_less(a@, b@),
{
    let count = a.len();
    let mut i: usize = 0;
    assert(a@.skip(0) =~= a@ && b@.skip(0) =~= b@);
    while i < count
        invariant
            count == a@.len(),
            a@.len() == b@.len(),
            i <= count,
            bytes_less(a@, b@) == bytes_less(a@.skip(i as int), b@.skip(i as int)),
        decreases count - i,
    {
        let ghost x = a@.skip(i as int);
        let ghost y = b@.skip(i as int);
        assert(x[0] == a@[i as int] && y[0] == b@[i as int]);
        if a[i] != b[i] {
            return a[i] < b[i];
        }
        assert(x.skip(1) =~= a@.skip(i + 1));
        assert(y.skip(1) =~= b@.skip(i + 1));
        i += 1;
    }
    false
}

/// Whether two runs of bytes of one length are the same.
pub fn slice_same(a: &[u8], b: &[u8]) -> (r: bool)
    requires
        a@.len() == b@.len(),
    ensures
        r == (a@ == b@),
{
    let count = a.len();
    let mut i: usize = 0;
    while i < count
        invariant
            count == a@.len(),
            a@.len() == b@.len(),
            i <= count,
            forall|j: int| 0 <= j < i ==> a@[j] == b@[j],
        decreases count - i,
    {
        if a[i] != b[i] {
            return false;
        }
        i += 1;
    }
    assert(a@ =~= b@);
    true
}

/// The `width` bytes of a fixed-width value that holds `data`: the data,
/// then zeros up to the width.
pub open spec fn padded(data: Seq<u8>, width: nat) -> Seq<u8>
    recommends
        data.len() <= width,
{
    Seq::new(width, |i: int| if i < data.len() { data[i] } else { 0u8 })
}

impl<const N: usize> Bytes<N> {
    /// The number of bytes that were stored.
    pub closed spec fn spec_len(&self) -> usize {
        self.length
    }

    /// All `N` bytes of the value.
    pub closed spec fn spec_all_bytes(&self) -> Seq<u8> {
        self.bytes@
    }

    /// Creates Bytes from [u8] slice: the bytes of the slice, then zeros.
    pub fn new(b: &[u8]) -> (r: Self)
        requires
            b@.len() <= N,
        ensures
            r.spec_len() == b@.len(),
            r.spec_all_bytes() == padded(b@, N as nat),
    {
        let length = b.len();
        let mut bytes = [0u8; N];
        let mut i: usize = 0;
        while i < length
            invariant
                length == b@.len(),
                length <= N,
                i <= length,
                forall|j: int| 0 <= j < i ==> bytes@[j] == b@[j],
                forall|j: int| i <= j < N ==> bytes@[j] == 0u8,
            decreases length - i,
        {
            bytes[i] = b[i];
            i += 1;
        }
        assert(bytes@ =~= padded(b@, N as nat));
        Self { bytes, length }
    }

    /// The bytes that stand for the value in a block: the length as a
    /// `usize` field, then all `N` bytes.
    pub open spec fn spec_encoded(&self) -> Seq<u8> {
        Field::spec_bytes(self.spec_len()) + self.spec_all_bytes()
    }

    /// The value that a run of `8 + N` bytes of a block stands for.
    pub closed spec fn spec_decoded(encoded: Seq<u8>) -> Self {
        Bytes {
            length: usize::spec_from_bytes(encoded.subrange(0, 8)),
            bytes: array_of(encoded.subrange(8, 8 + N)),
        }
    }

    /// Decoding what a value was encoded to gives the value back.
    pub proof fn lemma_encoding(self)
        ensures
            self.spec_encoded().len() == 8 + N,
            Self::spec_decoded(self.spec_encoded()) == self,
    {
        usize::lemma_round_trip(self.length);
        let encoded = self.spec_encoded();
        assert(encoded.subrange(0, 8) =~= Field::spec_bytes(self.length));
        assert(encoded.subrange(8, 8 + N) =~= self.bytes@);
        lemma_array_of(self.bytes);
    }

    /// The number of bytes that were stored.
    pub fn len(&self) -> (length: usize)
        ensures
            length == self.spec_len(),
    {
        self.length
    }

    /// All `N` bytes of the value.
    pub fn as_slice(&self) -> (bytes: &[u8])
        ensures
            bytes@ == self.spec_all_bytes(),
    {
        self.bytes.as_slice()
    }

    /// The text of all `N` bytes, written as a list.
    pub fn to_string(&self) -> (text: String)
        ensures
            text@ == debug_text(self.spec_all_bytes()),
    {
        debug_format(self.bytes.as_slice())
    }
}

/// std's `Debug` formatting of a slice of bytes, as `format!` with `{:?}`
/// gives it. Of the text it is only claimed that it depends on the bytes
/// alone.
#[verifier::external_body]
fn debug_format(bytes: &[u8]) -> (text: String)
    ensures
        text@ == debug_text(bytes@),
{
    format!("{:?}", bytes)
}

/// As a field of a block the value takes its length, as a `usize`, and then
/// all `N` bytes. Values are ordered by their lengths first, then by their
/// bytes.
impl<const N: usize> Field for Bytes<N> {
    open spec fn spec_width() -> nat {
        (8 + N) as nat
    }

    open spec fn spec_bytes(self) -> Seq<u8> {
        self.spec_encoded()
    }

    open spec fn spec_from_bytes(bytes: Seq<u8>) -> Self {
        Self::spec_decoded(bytes)
    }

    open spec fn spec_less(self, other: Self) -> bool {
        sized_less(self.spec_len(), self.spec_all_bytes(), other.spec_len(), other.spec_all_bytes())
    }

    proof fn lemma_round_trip(x: Self) {
        x.lemma_encoding();
    }

    proof fn lemma_total_order(a: Self, b: Self, c: Self) {
        lemma_bytes_order(a.bytes@, b.bytes@, c.bytes@);
        if a.length == b.length && a.bytes@ == b.bytes@ {
            assert(a.bytes =~= b.bytes);
        }
    }

    fn width() -> (w: usize) {
        8 + N
    }

    fn write(&self, out: &mut Vec<u8>) {
        self.length.write(out);
        let mut bytes = vstd::slice::slice_to_vec(self.bytes.as_slice());
        out.append(&mut bytes);
        assert(out@ =~= old(out)@ + self.spec_encoded());
    }

    /// The length is read from the first eight bytes, and the `N` bytes
    /// that follow them are the bytes of the value.
    fn read(block: &[u8], at: usize) -> (r: Self)
        ensures
            r.spec_len() == usize::spec_from_bytes(block@.subrange(at as int, at + 8)),
            r.spec_all_bytes() == block@.subrange(at + 8, at + 8 + N),
    {
        let end: usize = block.len();
        let ghost encoded = block@.subrange(at as int, at + 8 + N);
        let length = usize::read(block, at);
        assert(block@.subrange(at as int, at + 8) =~= encoded.subrange(0, 8));
        let mut bytes = [0u8; N];
        let mut i: usize = 0;
        while i < N
            invariant
                at + 8 + N <= block@.len(),
                end == block@.len(),
                i <= N,
                encoded == block@.subrange(at as int, at + 8 + N),
                forall|j: int| 0 <= j < i ==> bytes@[j] == encoded[8 + j],
            decreases N - i,
        {
            bytes[i] = block[at + 8 + i];
            i += 1;
        }
        assert(bytes@ =~= encoded.subrange(8, 8 + N));
        assert(bytes@ =~= block@.subrange(at + 8, at + 8 + N));
        proof {
            lemma_array_of(bytes);
        }
        Self { length, bytes }
    }

    fn less(&self, other: &Self) -> (r: bool) {
        if self.length != other.length {
            self.length < other.length
        } else {
            slice_less(self.bytes.as_slice(), other.bytes.as_slice())
        }
    }

    fn same(&self, other: &Self) -> (r: bool) {
        if self.length != other.length {
            false
        } else {
            let r = slice_same(self.bytes.as_slice(), other.bytes.as_slice());
            proof {
                if r {
                    assert(self.bytes =~= other.bytes);
                }
            }
            r
        }
    }
}

} // verus!
