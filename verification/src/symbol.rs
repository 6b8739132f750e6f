//! The order of symbol names: lexicographic by the bytes of their UTF-8
//! encoding, which is the order of `str`.

use vstd::prelude::*;
use vstd::utf8::{encode_utf8, encode_utf8_decode_utf8};
use core::cmp::Ordering;

verus! {

/// The opposite of an ordering.
pub open spec fn reversed(o: Ordering) -> Ordering {
    match o {
        Ordering::Less => Ordering::Greater,
        Ordering::Equal => Ordering::Equal,
        Ordering::Greater => Ordering::Less,
    }
}

/// Lexicographic order of what `a` and `b` hold from position `k` on: the
/// first position at which they differ decides, and where there is none the
/// shorter comes first.
pub open spec fn bytes_order_from(a: Seq<u8>, b: Seq<u8>, k: int) -> Ordering
    decreases a.len() - k,
{
    if k < 0 {
        Ordering::Equal
    } else if k >= a.len() {
        if k >= b.len() {
            Ordering::Equal
        } else {
            Ordering::Less
        }
    } else if k >= b.len() {
        Ordering::Greater
    } else if a[k] < b[k] {
        Ordering::Less
    } else if a[k] > b[k] {
        Ordering::Greater
    } else {
        bytes_order_from(a, b, k + 1)
    }
}

/// The order of two symbol names.
pub open spec fn symbol_order(a: Seq<char>, b: Seq<char>) -> Ordering {
    bytes_order_from(encode_utf8(a), encode_utf8(b), 0)
}

/// Exchanging the two sides reverses the order of bytes.
pub proof fn lemma_bytes_order_reversed(a: Seq<u8>, b: Seq<u8>, k: int)
    ensures
        bytes_order_from(b, a, k) == reversed(bytes_order_from(a, b, k)),
    decreases a.len() - k,
{
    if 0 <= k < a.len() && k < b.len() && a[k] == b[k] {
        lemma_bytes_order_reversed(a, b, k + 1);
    }
}

/// Two byte strings compare equal from `k` on exactly where they are equally
/// long and agree from `k` on.
pub proof fn lemma_bytes_order_equal(a: Seq<u8>, b: Seq<u8>, k: int)
    requires
        0 <= k,
    ensures
        bytes_order_from(a, b, k) == Ordering::Equal <==> (k >= a.len() && k >= b.len()) || (
        a.len() == b.len() && forall|j: int| k <= j < a.len() ==> a[j] == b[j]),
    decreases a.len() - k,
{
    if k < a.len() && k < b.len() && a[k] == b[k] {
        lemma_bytes_order_equal(a, b, k + 1);
    }
}

/// The order of bytes is transitive.
pub proof fn lemma_bytes_order_transitive(a: Seq<u8>, b: Seq<u8>, c: Seq<u8>, k: int)
    requires
        0 <= k,
        bytes_order_from(a, b, k) == Ordering::Less,
        bytes_order_from(b, c, k) == Ordering::Less,
    ensures
        bytes_order_from(a, c, k) == Ordering::Less,
    decreases a.len() - k,
{
    if k < a.len() && a[k] == b[k] && b[k] == c[k] {
        lemma_bytes_order_transitive(a, b, c, k + 1);
    }
}

/// The order of symbols is transitive.
pub proof fn lemma_symbol_order_transitive(a: Seq<char>, b: Seq<char>, c: Seq<char>)
    requires
        symbol_order(a, b) == Ordering::Less,
        symbol_order(b, c) == Ordering::Less,
    ensures
        symbol_order(a, c) == Ordering::Less,
{
    lemma_bytes_order_transitive(encode_utf8(a), encode_utf8(b), encode_utf8(c), 0);
}

/// Exchanging the two sides reverses the order of symbols.
pub proof fn lemma_symbol_order_reversed(a: Seq<char>, b: Seq<char>)
    ensures
        symbol_order(b, a) == reversed(symbol_order(a, b)),
{
    lemma_bytes_order_reversed(encode_utf8(a), encode_utf8(b), 0);
}

/// Two symbols compare equal exactly where they are the same symbol.
pub proof fn lemma_symbol_order_equal(a: Seq<char>, b: Seq<char>)
    ensures
        symbol_order(a, b) == Ordering::Equal <==> a == b,
{
    let x = encode_utf8(a);
    let y = encode_utf8(b);
    lemma_bytes_order_equal(x, y, 0);
    if symbol_order(a, b) == Ordering::Equal {
        assert(x =~= y);
        encode_utf8_decode_utf8(a);
        encode_utf8_decode_utf8(b);
    }
}

/// Compares two symbol names.
pub fn compare_symbols(a: &String, b: &String) -> (r: Ordering)
    ensures
        r == symbol_order(a@, b@),
{
    let x = a.as_str().as_bytes();
    let y = b.as_str().as_bytes();
    let mut i: usize = 0;
    let ghost mut k: int = 0;
    while i < x.len() && i < y.len()
        invariant
            x@ == encode_utf8(a@),
            y@ == encode_utf8(b@),
            k == i,
            k <= x@.len(),
            k <= y@.len(),
            bytes_order_from(x@, y@, 0) == bytes_order_from(x@, y@, k),
        decreases x.len() - i,
    {
        if x[i] < y[i] {
            return Ordering::Less;
        }
        if x[i] > y[i] {
            return Ordering::Greater;
        }
        i += 1;
        proof {
            k = k + 1;
        }
    }
    if i < y.len() {
        Ordering::Less
    } else if i < x.len() {
        Ordering::Greater
    } else {
        Ordering::Equal
    }
}

} // verus!
