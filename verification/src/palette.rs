//! The distinct pixels of an image, in order, and the place of each.
use std::collections::BTreeMap;

use vstd::arithmetic::div_mod::lemma_fundamental_div_mod_converse;
use vstd::prelude::*;
use vstd::std_specs::iter::IteratorSpec;

use crate::math::lemma_increasing;

verus! {

/// The eight bytes of `data` from `at` on, as one number, the first byte the most significant.
/// Numbers compare as the bytes do, first difference first.
pub open spec fn pixel_key(data: Seq<u8>, at: int) -> u64 {
    (data[at] * 0x100_0000_0000_0000 + data[at + 1] * 0x1_0000_0000_0000 + data[at + 2]
        * 0x100_0000_0000 + data[at + 3] * 0x1_0000_0000 + data[at + 4] * 0x100_0000 + data[at + 5]
        * 0x1_0000 + data[at + 6] * 0x100 + data[at + 7]) as u64
}

/// The pixels of a buffer, in order, as numbers.
pub open spec fn pixel_keys(data: Seq<u8>) -> Seq<u64> {
    Seq::new((data.len() / 8) as nat, |i: int| pixel_key(data, 8 * i))
}

/// `palette` holds each number of `keys` once, and no other, from the least to the greatest.
pub open spec fn is_palette(palette: Seq<u64>, keys: Seq<u64>) -> bool {
    &&& forall|i: int, j: int| 0 <= i < j < palette.len() ==> palette[i] < palette[j]
    &&& forall|i: int| 0 <= i < palette.len() ==> keys.contains(#[trigger] palette[i])
    &&& forall|i: int| 0 <= i < keys.len() ==> palette.contains(#[trigger] keys[i])
}

/// A sequence with one more element holds that element, and what it held before.
proof fn lemma_push_contains(s: Seq<u64>, last: u64, k: u64)
    ensures
        s.push(last).contains(k) <==> s.contains(k) || k == last,
{
    if s.contains(k) {
        let i = choose|i: int| 0 <= i < s.len() && s[i] == k;
        assert(s.push(last)[i] == k);
    }
    assert(s.push(last)[s.len() as int] == last);
}

/// The eight bytes of a number, the most significant first.
pub open spec fn key_bytes(key: u64) -> Seq<u8> {
    seq![
        (key / 0x100_0000_0000_0000) as u8,
        (key / 0x1_0000_0000_0000 % 256) as u8,
        (key / 0x100_0000_0000 % 256) as u8,
        (key / 0x1_0000_0000 % 256) as u8,
        (key / 0x100_0000 % 256) as u8,
        (key / 0x1_0000 % 256) as u8,
        (key / 0x100 % 256) as u8,
        (key % 256) as u8,
    ]
}

/// A pixel is what its number stands for.
pub proof fn lemma_key_bytes(data: Seq<u8>, at: int)
    requires
        0 <= at,
        at + 8 <= data.len(),
    ensures
        key_bytes(pixel_key(data, at)) == data.subrange(at, at + 8),
{
    let b = |i: int| data[at + i] as int;
    let key = pixel_key(data, at) as int;
    let h6 = b(0) * 0x100 + b(1);
    let h5 = h6 * 0x100 + b(2);
    let h4 = h5 * 0x100 + b(3);
    let h3 = h4 * 0x100 + b(4);
    let h2 = h3 * 0x100 + b(5);
    let h1 = h2 * 0x100 + b(6);
    assert(key == h1 * 0x100 + b(7));
    lemma_digit(key, 0, b(0), key - b(0) * 0x100_0000_0000_0000, 0x100_0000_0000_0000);
    lemma_digit(key, b(0), b(1), key - h6 * 0x1_0000_0000_0000, 0x1_0000_0000_0000);
    lemma_digit(key, h6, b(2), key - h5 * 0x100_0000_0000, 0x100_0000_0000);
    lemma_digit(key, h5, b(3), key - h4 * 0x1_0000_0000, 0x1_0000_0000);
    lemma_digit(key, h4, b(4), key - h3 * 0x100_0000, 0x100_0000);
    lemma_digit(key, h3, b(5), key - h2 * 0x1_0000, 0x1_0000);
    lemma_digit(key, h2, b(6), b(7), 0x100);
    assert(key_bytes(pixel_key(data, at)) =~= data.subrange(at, at + 8));
}

/// One byte of a number, by dividing what stands below it away.
proof fn lemma_digit(key: int, high: int, digit: int, low: int, unit: int)
    requires
        key == (high * 256 + digit) * unit + low,
        0 <= low < unit,
        0 <= digit < 256,
        0 <= high,
    ensures
        key / unit == high * 256 + digit,
        key / unit % 256 == digit,
{
    lemma_fundamental_div_mod_converse(key, unit, high * 256 + digit, low);
}

/// Reads the pixel that starts at `at`, as a number.
fn read_key(data: &Vec<u8>, at: usize) -> (r: u64)
    requires
        at + 8 <= data@.len(),
    ensures
        r == pixel_key(data@, at as int),
{
    assert(data.len() == data@.len());
    let a: u64 = data[at] as u64 * 0x100_0000_0000_0000 + data[at + 1] as u64 * 0x1_0000_0000_0000;
    let b: u64 = data[at + 2] as u64 * 0x100_0000_0000 + data[at + 3] as u64 * 0x1_0000_0000;
    let c: u64 = data[at + 4] as u64 * 0x100_0000 + data[at + 5] as u64 * 0x1_0000;
    let d: u64 = data[at + 6] as u64 * 0x100 + data[at + 7] as u64;
    a + b + c + d
}

/// Reads every pixel of a buffer, as numbers.
pub fn read_keys(data: &Vec<u8>) -> (r: Vec<u64>)
    ensures
        r@ == pixel_keys(data@),
        r@.len() == data@.len() / 8,
        forall|i: int|
            0 <= i < r@.len() ==> key_bytes(#[trigger] r@[i]) == data@.subrange(8 * i, 8 * i + 8),
{
    let count: usize = data.len() / 8;
    let mut r: Vec<u64> = Vec::new();
    let mut i: usize = 0;
    while i < count
        invariant
            i <= count,
            count == data@.len() / 8,
            r@.len() == i,
            forall|k: int| 0 <= k < i ==> #[trigger] r@[k] == pixel_key(data@, 8 * k),
        decreases count - i,
    {
        assert(data.len() == data@.len());
        r.push(read_key(data, i * 8));
        i = i + 1;
    }
    assert(r@ =~= pixel_keys(data@));
    proof {
        assert forall|i: int| 0 <= i < r@.len() implies key_bytes(#[trigger] r@[i])
            == data@.subrange(8 * i, 8 * i + 8) by {
            lemma_key_bytes(data@, 8 * i);
        }
    }
    r
}

/// Appends the eight bytes of a number, the most significant first.
pub fn push_key(out: &mut Vec<u8>, key: u64)
    ensures
        final(out)@ == old(out)@ + key_bytes(key),
{
    out.push((key / 0x100_0000_0000_0000) as u8);
    out.push((key / 0x1_0000_0000_0000 % 256) as u8);
    out.push((key / 0x100_0000_0000 % 256) as u8);
    out.push((key / 0x1_0000_0000 % 256) as u8);
    out.push((key / 0x100_0000 % 256) as u8);
    out.push((key / 0x1_0000 % 256) as u8);
    out.push((key / 0x100 % 256) as u8);
    out.push((key % 256) as u8);
    assert(out@ =~= old(out)@ + key_bytes(key));
}

/// The distinct numbers of `keys`, each with a value of no interest.
fn distinct(keys: &Vec<u64>) -> (r: BTreeMap<u64, usize>)
    ensures
        forall|k: u64| #[trigger] r@.contains_key(k) <==> keys@.contains(k),
{
    let mut seen: BTreeMap<u64, usize> = BTreeMap::new();
    let mut i: usize = 0;
    while i < keys.len()
        invariant
            i <= keys@.len(),
            forall|k: u64| #[trigger] seen@.contains_key(k) <==> keys@.take(i as int).contains(k),
        decreases keys@.len() - i,
    {
        let key: u64 = keys[i];
        seen.insert(key, 0);
        proof {
            assert(keys@.take(i + 1) =~= keys@.take(i as int).push(key));
            assert forall|k: u64| #[trigger] seen@.contains_key(k) <==> keys@.take(
                i + 1,
            ).contains(k) by {
                lemma_push_contains(keys@.take(i as int), key, k);
            }
        }
        i = i + 1;
    }
    assert(keys@.take(i as int) =~= keys@);
    seen
}

/// The keys of a map, from the least to the greatest.
fn sorted(seen: &BTreeMap<u64, usize>) -> (r: Vec<u64>)
    ensures
        forall|i: int, j: int| 0 <= i < j < r@.len() ==> r@[i] < r@[j],
        forall|k: u64| #[trigger] seen@.contains_key(k) <==> r@.contains(k),
{
    let mut r: Vec<u64> = Vec::new();
    let iter = seen.iter();
    let ghost entries = iter.remaining();
    let ghost ks = entries.map_values(|kv: (&u64, &usize)| *kv.0);
    proof {
        lemma_increasing(ks);
    }
    for (k, _v) in it: iter
        invariant
            it.seq() == entries,
            r@.len() == it.index(),
            forall|i: int| 0 <= i < r@.len() ==> #[trigger] r@[i] == *entries[i].0,
    {
        r.push(*k);
    }
    proof {
        assert(r@ =~= ks);
        assert forall|k: u64| #[trigger] seen@.contains_key(k) <==> r@.contains(k) by {
            if seen@.contains_key(k) {
                let i = choose|i: int| 0 <= i < entries.len() && entries[i] == (&k, &seen@[k]);
                assert(r@[i] == k);
            }
            if r@.contains(k) {
                let i = choose|i: int| 0 <= i < r@.len() && r@[i] == k;
                assert(seen@.contains_key(*entries[i].0));
            }
        }
    }
    r
}

/// The distinct numbers of `keys`, from the least to the greatest.
pub fn palette(keys: &Vec<u64>) -> (r: Vec<u64>)
    ensures
        is_palette(r@, keys@),
        forall|i: int, j: int| 0 <= i < j < r@.len() ==> r@[i] < r@[j],
        r@.to_set() == keys@.to_set(),
{
    let seen = distinct(keys);
    let r = sorted(&seen);
    proof {
        assert forall|i: int| 0 <= i < r@.len() implies keys@.contains(#[trigger] r@[i]) by {
            assert(seen@.contains_key(r@[i]));
        }
        assert forall|i: int| 0 <= i < keys@.len() implies r@.contains(#[trigger] keys@[i]) by {
            assert(keys@.contains(keys@[i]));
            assert(seen@.contains_key(keys@[i]));
        }
        assert forall|k: u64| r@.to_set().contains(k) == keys@.to_set().contains(k) by {
            assert(seen@.contains_key(k) == keys@.contains(k));
            assert(seen@.contains_key(k) == r@.contains(k));
        }
        assert(r@.to_set() =~= keys@.to_set());
    }
    r
}

/// The place of every number of a palette.
pub fn places(palette: &Vec<u64>) -> (r: BTreeMap<u64, usize>)
    requires
        forall|i: int, j: int| 0 <= i < j < palette@.len() ==> palette@[i] < palette@[j],
    ensures
        forall|i: int|
            0 <= i < palette@.len() ==> r@.contains_key(#[trigger] palette@[i]) && r@[palette@[i]]
                == i,
{
    let mut r: BTreeMap<u64, usize> = BTreeMap::new();
    let mut n: usize = 0;
    while n < palette.len()
        invariant
            n <= palette@.len(),
            forall|i: int, j: int| 0 <= i < j < palette@.len() ==> palette@[i] < palette@[j],
            forall|i: int|
                0 <= i < n ==> r@.contains_key(#[trigger] palette@[i]) && r@[palette@[i]] == i,
        decreases palette@.len() - n,
    {
        r.insert(palette[n], n);
        n = n + 1;
    }
    r
}

/// A palette has as many numbers as there are different ones.
pub proof fn lemma_palette_len(palette: Seq<u64>, keys: Seq<u64>)
    requires
        is_palette(palette, keys),
    ensures
        palette.len() == keys.to_set().len(),
        palette.len() <= keys.len(),
{
    assert(palette.to_set() =~= keys.to_set()) by {
        assert forall|k: u64| palette.to_set().contains(k) implies keys.to_set().contains(k) by {
            let i = choose|i: int| 0 <= i < palette.len() && palette[i] == k;
            assert(keys.contains(palette[i]));
        }
        assert forall|k: u64| keys.to_set().contains(k) implies palette.to_set().contains(k) by {
            let i = choose|i: int| 0 <= i < keys.len() && keys[i] == k;
            assert(palette.contains(keys[i]));
        }
    }
    palette.unique_seq_to_set();
    keys.lemma_cardinality_of_set();
}

/// Pixels compare as their bytes do: the first byte in which they differ decides, and pixels
/// without such a byte are the same.
pub proof fn law_pixels_compare_byte_by_byte(a: Seq<u8>, at: int, b: Seq<u8>, from: int, i: int)
    requires
        0 <= i < 8,
        forall|j: int| 0 <= j < i ==> #[trigger] a[at + j] == b[from + j],
    ensures
        a[at + i] < b[from + i] ==> pixel_key(a, at) < pixel_key(b, from),
        i == 7 && a[at + 7] == b[from + 7] ==> pixel_key(a, at) == pixel_key(b, from),
{
    let first = pixel_key(a, at) as int;
    let second = pixel_key(b, from) as int;
    assert(first == a[at] * 0x100_0000_0000_0000 + a[at + 1] * 0x1_0000_0000_0000 + a[at + 2]
        * 0x100_0000_0000 + a[at + 3] * 0x1_0000_0000 + a[at + 4] * 0x100_0000 + a[at + 5]
        * 0x1_0000 + a[at + 6] * 0x100 + a[at + 7]);
    assert(second == b[from] * 0x100_0000_0000_0000 + b[from + 1] * 0x1_0000_0000_0000 + b[from
        + 2] * 0x100_0000_0000 + b[from + 3] * 0x1_0000_0000 + b[from + 4] * 0x100_0000 + b[from
        + 5] * 0x1_0000 + b[from + 6] * 0x100 + b[from + 7]);
    assert(i > 0 ==> a[at + 0] == b[from + 0]);
    assert(i > 1 ==> a[at + 1] == b[from + 1]);
    assert(i > 2 ==> a[at + 2] == b[from + 2]);
    assert(i > 3 ==> a[at + 3] == b[from + 3]);
    assert(i > 4 ==> a[at + 4] == b[from + 4]);
    assert(i > 5 ==> a[at + 5] == b[from + 5]);
    assert(i > 6 ==> a[at + 6] == b[from + 6]);
}

} // verus!
