use std::mem;

use rowfile::{Bytes, Field, Varchar};

#[test]
fn test_bytes() {
    let b = Bytes::<32>::new(b"bytes32");
    assert_eq!(b.to_string(), String::from("[98, 121, 116, 101, 115, 51, 50, 0, 0, 0, 0, 0, 0, 0, 0, 0, 0, 0, 0, 0, 0, 0, 0, 0, 0, 0, 0, 0, 0, 0, 0, 0]"));
    assert_eq!(mem::size_of::<Bytes::<32>>(), 40);
}

#[test]
fn test_varchar() {
    let v = Varchar::<32>::new("varchar32");
    assert_eq!(v.to_string(), String::from("varchar32"));
    assert_eq!(mem::size_of::<Varchar::<32>>(), 40);
}

#[test]
fn bytes_are_padded_with_zeros() {
    let b = Bytes::<4>::new(&[7, 9]);
    assert_eq!(b.len(), 2);
    assert_eq!(b.as_slice().to_vec(), vec![7u8, 9, 0, 0]);
    assert_eq!(b.to_string(), String::from("[7, 9, 0, 0]"));
}

#[test]
fn bytes_may_fill_the_whole_width() {
    let b = Bytes::<3>::new(&[1, 2, 3]);
    assert_eq!(b.len(), 3);
    assert_eq!(b.as_slice().to_vec(), vec![1u8, 2, 3]);
    let none = Bytes::<3>::new(&[]);
    assert_eq!(none.len(), 0);
    assert_eq!(none.as_slice().to_vec(), vec![0u8, 0, 0]);
}

#[test]
fn bytes_come_back_from_a_block() {
    let b = Bytes::<4>::new(&[7, 9]);
    let mut block = vec![0xffu8];
    b.write(&mut block);
    assert_eq!(block, vec![0xffu8, 2, 0, 0, 0, 0, 0, 0, 0, 7, 9, 0, 0]);
    let back = Bytes::<4>::read(&block, 1);
    assert_eq!(back, b);
}

#[test]
fn varchar_keeps_the_text_without_padding() {
    let v = Varchar::<8>::new("héllo");
    assert_eq!(v.len(), 6);
    assert_eq!(v.text_bytes().to_vec(), "héllo".as_bytes().to_vec());
    assert_eq!(v.to_string(), String::from("héllo"));
    let none = Varchar::<8>::new("");
    assert_eq!(none.len(), 0);
    assert_eq!(none.to_string(), String::new());
}

#[test]
fn varchar_reads_broken_text_with_replacement() {
    let mut block = Vec::new();
    2usize.write(&mut block);
    block.extend_from_slice(&[b'a', 0xff, 0, 0]);
    let v = Varchar::<4>::read(&block, 0);
    assert_eq!(v.len(), 2);
    assert_eq!(v.to_string(), String::from("a\u{fffd}"));
}

#[test]
fn varchar_comes_back_from_a_block() {
    let v = Varchar::<6>::new("alex");
    let mut block = Vec::new();
    v.write(&mut block);
    assert_eq!(block, vec![4u8, 0, 0, 0, 0, 0, 0, 0, b'a', b'l', b'e', b'x', 0, 0]);
    assert_eq!(Varchar::<6>::read(&block, 0), v);
}

#[test]
fn integers_are_stored_little_endian() {
    let mut block = Vec::new();
    0x0102_0304u32.write(&mut block);
    0x0102_0304_0506_0708u64.write(&mut block);
    258usize.write(&mut block);
    assert_eq!(
        block,
        vec![4u8, 3, 2, 1, 8, 7, 6, 5, 4, 3, 2, 1, 2, 1, 0, 0, 0, 0, 0, 0]
    );
    assert_eq!(u32::read(&block, 0), 0x0102_0304);
    assert_eq!(u64::read(&block, 4), 0x0102_0304_0506_0708);
    assert_eq!(usize::read(&block, 12), 258);
    assert_eq!(u32::width(), 4);
    assert_eq!(u64::width(), 8);
    assert_eq!(usize::width(), 8);
}

#[test]
fn fields_compare_by_value() {
    assert!(3u32.less(&4));
    assert!(!4u32.less(&4));
    assert!(!5u32.less(&4));
    assert!(4u32.same(&4));
    assert!(!4u32.same(&5));
    assert!(3u64.less(&4));
    assert!(7usize.same(&7));
    assert!(!7usize.less(&7));
}

#[test]
fn fixed_width_values_order_as_their_derived_order() {
    let texts = ["", "a", "b", "ab", "ba", "abc", "abd", "zz", "alex", "bob"];
    for x in texts {
        for y in texts {
            let a = Varchar::<4>::new(x);
            let b = Varchar::<4>::new(y);
            assert_eq!(a.less(&b), a < b);
            assert_eq!(a.same(&b), a == b);
            let c = Bytes::<4>::new(x.as_bytes());
            let d = Bytes::<4>::new(y.as_bytes());
            assert_eq!(c.less(&d), c < d);
            assert_eq!(c.same(&d), c == d);
        }
    }
    assert!(Varchar::<4>::new("zz").less(&Varchar::<4>::new("abc")));
    assert!(Varchar::<4>::new("abc").less(&Varchar::<4>::new("abd")));
    assert!(!Varchar::<4>::new("abd").less(&Varchar::<4>::new("abc")));
    assert_eq!(Varchar::<4>::width(), 12);
    assert_eq!(Bytes::<32>::width(), 40);
}
