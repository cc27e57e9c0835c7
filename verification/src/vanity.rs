//! From a digest to the eight symbols that name a deck.
//!
//! The symbols are the eight base-32 digits of the digest's first forty
//! bits, most significant first, written with `0` to `9` and `a` to `v`.

use vstd::prelude::*;

verus! {

/// The symbol for a base-32 digit: `0` to `9`, then `a` to `v`.
pub open spec fn symbol(v: nat) -> u8 {
    if v < 10 {
        (0x30 + v) as u8
    } else {
        (0x61 + v - 10) as u8
    }
}

/// `b` is one of the thirty-two symbols.
pub open spec fn in_alphabet(b: u8) -> bool {
    0x30 <= b <= 0x39 || 0x61 <= b <= 0x76
}

/// The first forty bits of a digest as a number, first byte most significant.
pub open spec fn top_bits(digest: Seq<u8>) -> nat {
    (digest[0] as nat) * 0x1_0000_0000
        + (digest[1] as nat) * 0x100_0000
        + (digest[2] as nat) * 0x1_0000
        + (digest[3] as nat) * 0x100
        + (digest[4] as nat)
}

/// The `n` lowest base-32 digits of `v` as symbols, most significant first.
pub open spec fn base32_digits(v: nat, n: nat) -> Seq<u8>
    decreases n,
{
    if n == 0 {
        Seq::empty()
    } else {
        base32_digits(v / 32, (n - 1) as nat).push(symbol(v % 32))
    }
}

/// The eight symbols for a digest.
pub open spec fn vanity(digest: Seq<u8>) -> Seq<u8> {
    base32_digits(top_bits(digest), 8)
}

/// `prefix` is the beginning of `text`.
pub open spec fn begins_with(text: Seq<u8>, prefix: Seq<u8>) -> bool {
    prefix.len() <= text.len() && text.take(prefix.len() as int) == prefix
}

/// Base-32 digits are as many as were asked for, and each is a symbol.
pub proof fn lemma_base32_digits(v: nat, n: nat)
    ensures
        base32_digits(v, n).len() == n,
        forall|i: int| 0 <= i < n ==> in_alphabet(#[trigger] base32_digits(v, n)[i]),
    decreases n,
{
    if n > 0 {
        lemma_base32_digits(v / 32, (n - 1) as nat);
    }
}

/// Whatever the digest, its eight symbols are each one of `0` to `9` and
/// `a` to `v`.
pub proof fn lemma_vanity_alphabet(digest: Seq<u8>)
    ensures
        vanity(digest).len() == 8,
        forall|i: int| 0 <= i < 8 ==> in_alphabet(#[trigger] vanity(digest)[i]),
{
    lemma_base32_digits(top_bits(digest), 8);
}

/// A prefix of more than eight bytes, or with a byte that is no symbol, is
/// the beginning of no digest's eight symbols.
pub proof fn lemma_never_begins(digest: Seq<u8>, prefix: Seq<u8>)
    requires
        prefix.len() > 8 || exists|i: int| 0 <= i < prefix.len() && !in_alphabet(prefix[i]),
    ensures
        !begins_with(vanity(digest), prefix),
{
    lemma_vanity_alphabet(digest);
    if prefix.len() <= 8 && begins_with(vanity(digest), prefix) {
        let i = choose|i: int| 0 <= i < prefix.len() && !in_alphabet(prefix[i]);
        assert(vanity(digest).take(prefix.len() as int)[i] == vanity(digest)[i]);
    }
}

/// The five-bit groups of `word`, each in a byte of its own.
spec fn spread(word: u64) -> u64 {
    (word & 0x1f)
        | ((word >> 5) & 0x1f) << 8
        | ((word >> 10) & 0x1f) << 16
        | ((word >> 15) & 0x1f) << 24
        | ((word >> 20) & 0x1f) << 32
        | ((word >> 25) & 0x1f) << 40
        | ((word >> 30) & 0x1f) << 48
        | ((word >> 35) & 0x1f) << 56
}

/// In each byte 1 where the byte of `lanes` is ten or more, else 0.
spec fn letters(lanes: u64) -> u64 {
    (((lanes + 0x7676_7676_7676_7676) as u64) & 0x8080_8080_8080_8080) >> 7
}

/// Each byte of `lanes` as its symbol.
spec fn symbols(lanes: u64) -> u64 {
    (lanes + (letters(lanes) * 39 + 0x3030_3030_3030_3030)) as u64
}

/// The symbol for a base-32 digit, in a word.
spec fn symbol_of(digit: u64) -> u64 {
    if digit < 10 {
        (0x30 + digit) as u64
    } else {
        (0x57 + digit) as u64
    }
}

/// Each byte of the symbols for `word` is the symbol of one base-32 digit of
/// `word`, the lowest byte that of the lowest digit. No sum on the way
/// leaves its byte.
proof fn lemma_symbols(word: u64)
    by (bit_vector)
    requires
        word < 0x100_0000_0000,
    ensures
        spread(word) <= 0x1f1f_1f1f_1f1f_1f1f,
        letters(spread(word)) <= 0x0101_0101_0101_0101,
        symbols(spread(word)) <= 0x7676_7676_7676_7676,
        (symbols(spread(word)) >> 0) & 0xff == symbol_of(word % 32),
        (symbols(spread(word)) >> 8) & 0xff == symbol_of(word / 32 % 32),
        (symbols(spread(word)) >> 16) & 0xff == symbol_of(word / 32 / 32 % 32),
        (symbols(spread(word)) >> 24) & 0xff == symbol_of(word / 32 / 32 / 32 % 32),
        (symbols(spread(word)) >> 32) & 0xff == symbol_of(word / 32 / 32 / 32 / 32 % 32),
        (symbols(spread(word)) >> 40) & 0xff == symbol_of(word / 32 / 32 / 32 / 32 / 32 % 32),
        (symbols(spread(word)) >> 48) & 0xff == symbol_of(word / 32 / 32 / 32 / 32 / 32 / 32 % 32),
        (symbols(spread(word)) >> 56) & 0xff == symbol_of(word / 32 / 32 / 32 / 32 / 32 / 32 / 32 % 32),
{
}

/// The first eight bytes of a digest in one word, first byte most
/// significant, hold the first forty bits above the lowest twenty-four.
proof fn lemma_top_bits(a: u8, b: u8, c: u8, d: u8, e: u8, f: u8, g: u8, h: u8)
    by (bit_vector)
    ensures
        leading_word(a, b, c, d, e, f, g, h) >> 24 == (a as u64) * 0x1_0000_0000 + (b as u64) * 0x100_0000 + (
        c as u64) * 0x1_0000 + (d as u64) * 0x100 + (e as u64),
        leading_word(a, b, c, d, e, f, g, h) >> 24 < 0x100_0000_0000,
{
}

/// Eight bytes as one word, first byte most significant.
spec fn leading_word(a: u8, b: u8, c: u8, d: u8, e: u8, f: u8, g: u8, h: u8) -> u64 {
    (a as u64) << 56
        | (b as u64) << 48
        | (c as u64) << 40
        | (d as u64) << 32
        | (e as u64) << 24
        | (f as u64) << 16
        | (g as u64) << 8
        | (h as u64)
}

/// The byte `j` of `packed`, counted from the least significant.
fn byte_of(packed: u64, j: u32) -> (b: u8)
    requires
        j < 8,
    ensures
        b == (packed >> (8 * j)) & 0xff,
{
    let b = (packed >> (8 * j)) & 0xff;
    assert(b <= 0xff) by (bit_vector)
        requires
            b == (packed >> (8 * j)) & 0xff,
    ;
    b as u8
}

/// The eight base-32 digits of a number, written out.
proof fn lemma_eight_digits(v: nat)
    ensures
        base32_digits(v, 8) == seq![
            symbol((v / 32 / 32 / 32 / 32 / 32 / 32 / 32 % 32) as nat),
            symbol((v / 32 / 32 / 32 / 32 / 32 / 32 % 32) as nat),
            symbol((v / 32 / 32 / 32 / 32 / 32 % 32) as nat),
            symbol((v / 32 / 32 / 32 / 32 % 32) as nat),
            symbol((v / 32 / 32 / 32 % 32) as nat),
            symbol((v / 32 / 32 % 32) as nat),
            symbol((v / 32 % 32) as nat),
            symbol((v % 32) as nat),
        ],
{
    reveal_with_fuel(base32_digits, 9);
}

/// A byte that holds the symbol of a digit as the packed word gives it holds
/// the symbol of that digit.
proof fn lemma_symbol(digit: u64, byte: u8)
    requires
        digit < 32,
        byte == symbol_of(digit),
    ensures
        byte == symbol(digit as nat),
{
}

/// The bytes of the packed symbols, highest first, are the eight symbols
/// of the digest.
proof fn lemma_packed_is_vanity(digest: Seq<u8>, word: u64, packed: u64, out: Seq<u8>)
    requires
        digest.len() >= 8,
        word == leading_word(
            digest[0],
            digest[1],
            digest[2],
            digest[3],
            digest[4],
            digest[5],
            digest[6],
            digest[7],
        ) >> 24,
        packed == symbols(spread(word)),
        out.len() == 8,
        out[7] == (packed >> 0) & 0xff,
        out[6] == (packed >> 8) & 0xff,
        out[5] == (packed >> 16) & 0xff,
        out[4] == (packed >> 24) & 0xff,
        out[3] == (packed >> 32) & 0xff,
        out[2] == (packed >> 40) & 0xff,
        out[1] == (packed >> 48) & 0xff,
        out[0] == (packed >> 56) & 0xff,
    ensures
        out == vanity(digest),
{
    lemma_top_bits(digest[0], digest[1], digest[2], digest[3], digest[4], digest[5], digest[6], digest[7]);
    lemma_symbols(word);
    lemma_symbol(word % 32, out[7]);
    lemma_symbol(word / 32 % 32, out[6]);
    lemma_symbol(word / 32 / 32 % 32, out[5]);
    lemma_symbol(word / 32 / 32 / 32 % 32, out[4]);
    lemma_symbol(word / 32 / 32 / 32 / 32 % 32, out[3]);
    lemma_symbol(word / 32 / 32 / 32 / 32 / 32 % 32, out[2]);
    lemma_symbol(word / 32 / 32 / 32 / 32 / 32 / 32 % 32, out[1]);
    lemma_symbol(word / 32 / 32 / 32 / 32 / 32 / 32 / 32 % 32, out[0]);
    lemma_eight_digits(word as nat);
}

/// Derives the eight symbols from a digest.
///
/// The first eight bytes are read as one word, of which the first forty
/// bits are kept. No lane is decided by a branch: the five-bit groups are
/// spread over the bytes of a word, a carry marks the bytes that hold ten or
/// more, and one addition turns every byte into its symbol.
pub fn vanity_string(digest: &[u8]) -> (out: [u8; 8])
    requires
        digest@.len() >= 8,
    ensures
        out@ == vanity(digest@),
        forall|i: int| 0 <= i < 8 ==> in_alphabet(#[trigger] out@[i]),
{
    let leading: u64 = (digest[0] as u64) << 56
        | (digest[1] as u64) << 48
        | (digest[2] as u64) << 40
        | (digest[3] as u64) << 32
        | (digest[4] as u64) << 24
        | (digest[5] as u64) << 16
        | (digest[6] as u64) << 8
        | (digest[7] as u64);
    let word: u64 = leading >> 24;
    proof {
        lemma_top_bits(digest[0], digest[1], digest[2], digest[3], digest[4], digest[5], digest[6], digest[7]);
        lemma_symbols(word);
    }
    let lanes: u64 = (word & 0x1f)
        | ((word >> 5) & 0x1f) << 8
        | ((word >> 10) & 0x1f) << 16
        | ((word >> 15) & 0x1f) << 24
        | ((word >> 20) & 0x1f) << 32
        | ((word >> 25) & 0x1f) << 40
        | ((word >> 30) & 0x1f) << 48
        | ((word >> 35) & 0x1f) << 56;
    let marks: u64 = ((lanes + 0x7676_7676_7676_7676) & 0x8080_8080_8080_8080) >> 7;
    let packed: u64 = lanes + (marks * 39 + 0x3030_3030_3030_3030);
    let out = [
        byte_of(packed, 7),
        byte_of(packed, 6),
        byte_of(packed, 5),
        byte_of(packed, 4),
        byte_of(packed, 3),
        byte_of(packed, 2),
        byte_of(packed, 1),
        byte_of(packed, 0),
    ];
    proof {
        lemma_packed_is_vanity(digest@, word, packed, out@);
    }
    out
}

/// Tells whether `text` begins with `prefix`.
pub fn starts_with(text: &[u8], prefix: &[u8]) -> (r: bool)
    ensures
        r == begins_with(text@, prefix@),
{
    if prefix.len() > text.len() {
        return false;
    }
    let mut i: usize = 0;
    while i < prefix.len()
        invariant
            i <= prefix@.len() <= text@.len(),
            forall|k: int| 0 <= k < i ==> text@[k] == prefix@[k],
        decreases prefix@.len() - i,
    {
        if text[i] != prefix[i] {
            return false;
        }
        i += 1;
    }
    assert(text@.take(prefix@.len() as int) =~= prefix@);
    true
}

} // verus!
