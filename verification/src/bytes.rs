//! Byte strings: big-endian numbers, texts and decimal numerals.

use vstd::prelude::*;
use vstd::string::{StringExecFns, StringSliceAdditionalSpecFns};

verus! {

/// The two octets of `n` in network order.
pub open spec fn be16(n: int) -> Seq<u8> {
    seq![(n / 0x100 % 0x100) as u8, (n % 0x100) as u8]
}

/// The four octets of `n` in network order.
pub open spec fn be32(n: int) -> Seq<u8> {
    be16(n / 0x1_0000 % 0x1_0000) + be16(n % 0x1_0000)
}

/// The four octets of a number are those of what is left of it modulo two to
/// the power of 32.
pub proof fn lemma_be32_wraps(n: int)
    requires
        n >= 0,
    ensures
        be32(n % 0x1_0000_0000) == be32(n),
{
    let m = n % 0x1_0000_0000;
    assert(n / 0x1_0000 % 0x1_0000 == m / 0x1_0000 % 0x1_0000);
    assert(n % 0x1_0000 == m % 0x1_0000);
}

/// The eight octets of `n` in network order.
pub open spec fn be64(n: int) -> Seq<u8> {
    be32(n / 0x1_0000_0000) + be32(n % 0x1_0000_0000)
}

/// The number that two octets in network order stand for.
pub open spec fn from_be16(s: Seq<u8>) -> int {
    s[0] * 0x100 + s[1]
}

/// The number that four octets in network order stand for.
pub open spec fn from_be32(s: Seq<u8>) -> int {
    from_be16(s.take(2)) * 0x1_0000 + from_be16(s.skip(2))
}

pub proof fn lemma_be16(n: int)
    requires
        0 <= n < 0x1_0000,
    ensures
        be16(n).len() == 2,
        from_be16(be16(n)) == n,
{
}

pub proof fn lemma_be32(n: int)
    requires
        0 <= n < 0x1_0000_0000,
    ensures
        be32(n).len() == 4,
        from_be32(be32(n)) == n,
{
    let hi = n / 0x1_0000 % 0x1_0000;
    let lo = n % 0x1_0000;
    lemma_be16(hi);
    lemma_be16(lo);
    assert(be32(n).take(2) =~= be16(hi));
    assert(be32(n).skip(2) =~= be16(lo));
}

pub proof fn lemma_be64_len(n: int)
    ensures
        be64(n).len() == 8,
{
}

/// The octets of a text.
pub open spec fn text(s: &str) -> Seq<u8> {
    s.spec_bytes()
}

/// The octets of several byte vectors.
pub open spec fn views(v: Seq<Vec<u8>>) -> Seq<Seq<u8>> {
    v.map_values(|x: Vec<u8>| x@)
}

/// Concatenation is associative.
pub proof fn lemma_concat_assoc(a: Seq<u8>, b: Seq<u8>, c: Seq<u8>)
    ensures
        (a + b) + c == a + (b + c),
{
    assert((a + b) + c =~= a + (b + c));
}

pub fn push_be16(out: &mut Vec<u8>, n: u16)
    ensures
        final(out)@ == old(out)@ + be16(n as int),
{
    out.push((n / 0x100) as u8);
    out.push((n % 0x100) as u8);
    assert(out@ =~= old(out)@ + be16(n as int));
}

pub fn push_be32(out: &mut Vec<u8>, n: u32)
    ensures
        final(out)@ == old(out)@ + be32(n as int),
{
    push_be16(out, (n / 0x1_0000) as u16);
    push_be16(out, (n % 0x1_0000) as u16);
    assert(out@ =~= old(out)@ + be32(n as int));
}

pub fn push_be64(out: &mut Vec<u8>, n: u64)
    ensures
        final(out)@ == old(out)@ + be64(n as int),
{
    push_words(out, (n / 0x1_0000_0000) as u32, (n % 0x1_0000_0000) as u32);
}

fn push_words(out: &mut Vec<u8>, hi: u32, lo: u32)
    ensures
        final(out)@ == old(out)@ + (be32(hi as int) + be32(lo as int)),
{
    push_be32(out, hi);
    push_be32(out, lo);
    proof {
        lemma_concat_assoc(old(out)@, be32(hi as int), be32(lo as int));
    }
}

/// Appends `data` to `out`.
pub fn extend(out: &mut Vec<u8>, data: &[u8])
    ensures
        final(out)@ == old(out)@ + data@,
{
    out.extend_from_slice(data);
    assert(out@ =~= old(out)@ + data@);
}

/// Copies `data`.
pub fn to_vec(data: &[u8]) -> (r: Vec<u8>)
    ensures
        r@ == data@,
{
    let mut out: Vec<u8> = Vec::new();
    extend(&mut out, data);
    assert(out@ =~= data@);
    out
}

/// Copies the octets of `data` from `from` up to, but not with, `to`.
pub fn copy_range(data: &[u8], from: usize, to: usize) -> (r: Vec<u8>)
    requires
        from <= to <= data@.len(),
    ensures
        r@ == data@.subrange(from as int, to as int),
{
    let mut out: Vec<u8> = Vec::new();
    let mut i: usize = from;
    while i < to
        invariant
            from <= i <= to <= data@.len(),
            out@ == data@.subrange(from as int, i as int),
        decreases to - i,
    {
        out.push(data[i]);
        i = i + 1;
        assert(out@ =~= data@.subrange(from as int, i as int));
    }
    out
}

/// Whether two byte strings are the same.
pub fn equal(a: &[u8], b: &[u8]) -> (r: bool)
    ensures
        r == (a@ == b@),
{
    if a.len() != b.len() {
        return false;
    }
    let mut i: usize = 0;
    while i < a.len()
        invariant
            a@.len() == b@.len(),
            i <= a@.len(),
            forall|j: int| 0 <= j < i ==> a@[j] == b@[j],
        decreases a@.len() - i,
    {
        if a[i] != b[i] {
            return false;
        }
        i = i + 1;
    }
    assert(a@ =~= b@);
    true
}

/// The character of the decimal digit `d`.
pub open spec fn digit_char(d: int) -> char {
    if d == 0 { '0' } else if d == 1 { '1' } else if d == 2 { '2' } else if d == 3 { '3' }
    else if d == 4 { '4' } else if d == 5 { '5' } else if d == 6 { '6' } else if d == 7 { '7' }
    else if d == 8 { '8' } else { '9' }
}

/// The decimal numeral of `n`.
pub open spec fn decimal(n: nat) -> Seq<char>
    decreases n,
{
    if n < 10 {
        seq![digit_char(n as int)]
    } else {
        decimal(n / 10).push(digit_char((n % 10) as int))
    }
}

fn digit(d: u64) -> (r: &'static str)
    requires
        d < 10,
    ensures
        r@ == seq![digit_char(d as int)],
{
    proof {
        reveal_strlit("0");
        reveal_strlit("1");
        reveal_strlit("2");
        reveal_strlit("3");
        reveal_strlit("4");
        reveal_strlit("5");
        reveal_strlit("6");
        reveal_strlit("7");
        reveal_strlit("8");
        reveal_strlit("9");
    }
    if d == 0 { "0" } else if d == 1 { "1" } else if d == 2 { "2" } else if d == 3 { "3" }
    else if d == 4 { "4" } else if d == 5 { "5" } else if d == 6 { "6" } else if d == 7 { "7" }
    else if d == 8 { "8" } else { "9" }
}

/// Writes `n` as a decimal numeral.
pub fn to_decimal(n: u64) -> (r: String)
    ensures
        r@ == decimal(n as nat),
    decreases n,
{
    if n < 10 {
        let r = String::from_str(digit(n));
        assert(r@ =~= decimal(n as nat));
        r
    } else {
        let r = to_decimal(n / 10).concat(digit(n % 10));
        assert(r@ =~= decimal(n as nat));
        r
    }
}

} // verus!
