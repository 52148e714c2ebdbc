use vstd::prelude::*;
use vstd::bytes::*;
use vstd::slice::slice_subrange;

verus! {

/// A value that fills a fixed number of bytes inside a block and that is
/// totally ordered, so that it can serve as the key of an index.
pub trait Field: Sized + Copy {
    /// The number of bytes that every value of the type occupies.
    spec fn spec_width() -> nat;

    /// The bytes that stand for the value.
    spec fn spec_bytes(self) -> Seq<u8>;

    /// The value that a run of `spec_width()` bytes stands for.
    spec fn spec_from_bytes(bytes: Seq<u8>) -> Self;

    /// The strict order of the values.
    spec fn spec_less(self, other: Self) -> bool;

    /// Encoding yields `spec_width()` bytes, and decoding them gives the value back.
    proof fn lemma_round_trip(x: Self)
        ensures
            x.spec_bytes().len() == Self::spec_width(),
            Self::spec_from_bytes(x.spec_bytes()) == x,
    ;

    /// `spec_less` is a strict total order.
    proof fn lemma_total_order(a: Self, b: Self, c: Self)
        ensures
            !a.spec_less(a),
            a.spec_less(b) && b.spec_less(c) ==> a.spec_less(c),
            a.spec_less(b) || b.spec_less(a) || a == b,
    ;

    /// The number of bytes that every value of the type occupies, for a
    /// type whose width a `usize` can hold.
    fn width() -> (w: usize)
        requires
            Self::spec_width() <= usize::MAX,
        ensures
            w == Self::spec_width(),
    ;

    /// Appends the value's bytes to `out`.
    fn write(&self, out: &mut Vec<u8>)
        ensures
            final(out)@ == old(out)@ + self.spec_bytes(),
    ;

    /// Decodes the value that starts at offset `at` of `block`.
    fn read(block: &[u8], at: usize) -> (r: Self)
        requires
            at + Self::spec_width() <= block@.len(),
        ensures
            r == Self::spec_from_bytes(block@.subrange(at as int, at + Self::spec_width())),
    ;

    /// Whether the value comes before `other`.
    fn less(&self, other: &Self) -> (r: bool)
        ensures
            r == self.spec_less(*other),
    ;

    /// Whether the value is `other`.
    fn same(&self, other: &Self) -> (r: bool)
        ensures
            r == (*self == *other),
    ;
}

impl Field for u32 {
    open spec fn spec_width() -> nat {
        4
    }

    open spec fn spec_bytes(self) -> Seq<u8> {
        spec_u32_to_le_bytes(self)
    }

    open spec fn spec_from_bytes(bytes: Seq<u8>) -> Self {
        spec_u32_from_le_bytes(bytes)
    }

    open spec fn spec_less(self, other: Self) -> bool {
        self < other
    }

    proof fn lemma_round_trip(x: Self) {
        lemma_auto_spec_u32_to_from_le_bytes();
        assert(spec_u32_to_le_bytes(x).len() == 4);
    }

    proof fn lemma_total_order(a: Self, b: Self, c: Self) {
    }

    fn width() -> (w: usize) {
        4
    }

    fn write(&self, out: &mut Vec<u8>) {
        let mut bytes = u32_to_le_bytes(*self);
        out.append(&mut bytes);
    }

    fn read(block: &[u8], at: usize) -> (r: Self) {
        let end: usize = block.len();
        assert(at + 4 <= end);
        u32_from_le_bytes(slice_subrange(block, at, at + 4))
    }

    fn less(&self, other: &Self) -> (r: bool) {
        *self < *other
    }

    fn same(&self, other: &Self) -> (r: bool) {
        *self == *other
    }
}

impl Field for u64 {
    open spec fn spec_width() -> nat {
        8
    }

    open spec fn spec_bytes(self) -> Seq<u8> {
        spec_u64_to_le_bytes(self)
    }

    open spec fn spec_from_bytes(bytes: Seq<u8>) -> Self {
        spec_u64_from_le_bytes(bytes)
    }

    open spec fn spec_less(self, other: Self) -> bool {
        self < other
    }

    proof fn lemma_round_trip(x: Self) {
        lemma_auto_spec_u64_to_from_le_bytes();
    }

    proof fn lemma_total_order(a: Self, b: Self, c: Self) {
    }

    fn width() -> (w: usize) {
        8
    }

    fn write(&self, out: &mut Vec<u8>) {
        let mut bytes = u64_to_le_bytes(*self);
        out.append(&mut bytes);
    }

    fn read(block: &[u8], at: usize) -> (r: Self) {
        let end: usize = block.len();
        assert(at + 8 <= end);
        u64_from_le_bytes(slice_subrange(block, at, at + 8))
    }

    fn less(&self, other: &Self) -> (r: bool) {
        *self < *other
    }

    fn same(&self, other: &Self) -> (r: bool) {
        *self == *other
    }
}

/// A `usize` is stored as the eight little-endian bytes of its value.
impl Field for usize {
    open spec fn spec_width() -> nat {
        8
    }

    open spec fn spec_bytes(self) -> Seq<u8> {
        spec_u64_to_le_bytes(self as u64)
    }

    open spec fn spec_from_bytes(bytes: Seq<u8>) -> Self {
        spec_u64_from_le_bytes(bytes) as usize
    }

    open spec fn spec_less(self, other: Self) -> bool {
        self < other
    }

    proof fn lemma_round_trip(x: Self) {
        lemma_auto_spec_u64_to_from_le_bytes();
    }

    proof fn lemma_total_order(a: Self, b: Self, c: Self) {
    }

    fn width() -> (w: usize) {
        8
    }

    fn write(&self, out: &mut Vec<u8>) {
        let mut bytes = u64_to_le_bytes(*self as u64);
        out.append(&mut bytes);
    }

    fn read(block: &[u8], at: usize) -> (r: Self) {
        let end: usize = block.len();
        assert(at + 8 <= end);
        let wide: u64 = u64_from_le_bytes(slice_subrange(block, at, at + 8));
        #[verifier::truncate]
        (wide as usize)
    }

    fn less(&self, other: &Self) -> (r: bool) {
        *self < *other
    }

    fn same(&self, other: &Self) -> (r: bool) {
        *self == *other
    }
}

} // verus!
