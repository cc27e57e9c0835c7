//! The bytes that are hashed for a deck.
//!
//! First every unit of every sideboard card, as `SB:`, the name and `;`;
//! then the scratch bytes; then the maindeck, every unit of every card by
//! its name, with `;` between two of them.

use crate::holdings::Holdings;
use crate::tally::Tally;
use vstd::prelude::*;

verus! {

pub const SEPARATOR: u8 = 0x3b;

/// `unit` repeated `n` times.
pub open spec fn repeated(unit: Seq<u8>, n: nat) -> Seq<u8>
    decreases n,
{
    if n == 0 {
        Seq::empty()
    } else {
        repeated(unit, (n - 1) as nat) + unit
    }
}

/// What one unit of a sideboard card adds to the hash input.
pub open spec fn tag(name: Seq<u8>) -> Seq<u8> {
    seq![0x53u8, 0x42u8, 0x3au8] + name + seq![SEPARATOR]
}

/// What a sideboard adds to the hash input: the tag of each card as many
/// times as its count says, card after card.
pub open spec fn sideboard_stream(h: Holdings) -> Seq<u8>
    decreases h.len(),
{
    if h.len() == 0 {
        Seq::empty()
    } else {
        sideboard_stream(h.drop_last()) + repeated(tag(h.last().0), h.last().1)
    }
}

/// The names of a mapping in order, each as many times as its count says.
pub open spec fn occurrences(h: Holdings) -> Seq<Seq<u8>>
    decreases h.len(),
{
    if h.len() == 0 {
        Seq::empty()
    } else {
        occurrences(h.drop_last()) + Seq::new(h.last().1, |k: int| h.last().0)
    }
}

/// The parts in a row, with one separator between two of them and none at
/// either end.
pub open spec fn joined(parts: Seq<Seq<u8>>) -> Seq<u8>
    decreases parts.len(),
{
    if parts.len() == 0 {
        Seq::empty()
    } else if parts.len() == 1 {
        parts[0]
    } else {
        joined(parts.drop_last()).push(SEPARATOR) + parts.last()
    }
}

/// The canonical bytes of a maindeck.
pub open spec fn canonical_maindeck(h: Holdings) -> Seq<u8> {
    joined(occurrences(h))
}

/// The bytes that are hashed for a sideboard, a scratch buffer and the
/// canonical bytes of a maindeck.
pub open spec fn hash_input(side: Holdings, scratch: Seq<u8>, main_bytes: Seq<u8>) -> Seq<u8> {
    sideboard_stream(side) + scratch + main_bytes
}

/// Appends `part` to `out`.
pub fn append_bytes(out: &mut Vec<u8>, part: &[u8])
    ensures
        final(out)@ == old(out)@ + part@,
{
    let mut i: usize = 0;
    while i < part.len()
        invariant
            i <= part@.len(),
            out@ == old(out)@ + part@.take(i as int),
        decreases part@.len() - i,
    {
        out.push(part[i]);
        i += 1;
    }
}

/// Appends what the sideboard `side` adds to the hash input.
pub fn append_sideboard(out: &mut Vec<u8>, side: &Tally<'_>)
    ensures
        final(out)@ == old(out)@ + sideboard_stream(side@),
{
    let n = side.len();
    let mut i: usize = 0;
    while i < n
        invariant
            n == side@.len(),
            i <= n,
            out@ == old(out)@ + sideboard_stream(side@.take(i as int)),
        decreases n - i,
    {
        let name = side.name_at(i).as_bytes();
        let count = side.count_at(i);
        let ghost before = out@;
        let mut k: usize = 0;
        while k < count
            invariant
                k <= count,
                out@ == before + repeated(tag(name@), k as nat),
            decreases count - k,
        {
            out.push(0x53);
            out.push(0x42);
            out.push(0x3a);
            append_bytes(out, name);
            out.push(SEPARATOR);
            k += 1;
        }
        assert(side@.take(i + 1).drop_last() =~= side@.take(i as int));
        i += 1;
    }
    assert(side@.take(n as int) =~= side@);
}

/// Adding a part to parts that are joined: a separator goes before it unless
/// it is the first.
proof fn lemma_joined_push(parts: Seq<Seq<u8>>, part: Seq<u8>)
    ensures
        joined(parts.push(part)) == if parts.len() == 0 {
            part
        } else {
            joined(parts).push(SEPARATOR) + part
        },
{
    assert(parts.push(part).drop_last() =~= parts);
}

/// Computes the canonical bytes of a maindeck.
pub fn maindeck_bytes(main: &Tally<'_>) -> (out: Vec<u8>)
    ensures
        out@ == canonical_maindeck(main@),
{
    let mut out: Vec<u8> = Vec::new();
    let mut first = true;
    let n = main.len();
    let mut i: usize = 0;
    let ghost mut parts: Seq<Seq<u8>> = Seq::empty();
    while i < n
        invariant
            n == main@.len(),
            i <= n,
            parts == occurrences(main@.take(i as int)),
            out@ == joined(parts),
            first == (parts.len() == 0),
        decreases n - i,
    {
        let name = main.name_at(i).as_bytes();
        let count = main.count_at(i);
        let ghost before = parts;
        let mut k: usize = 0;
        while k < count
            invariant
                k <= count,
                parts == before + Seq::new(k as nat, |j: int| name@),
                out@ == joined(parts),
                first == (parts.len() == 0),
            decreases count - k,
        {
            proof {
                lemma_joined_push(parts, name@);
            }
            if first {
                first = false;
            } else {
                out.push(SEPARATOR);
            }
            append_bytes(&mut out, name);
            proof {
                parts = parts.push(name@);
            }
            k += 1;
        }
        assert(main@.take(i + 1).drop_last() =~= main@.take(i as int));
        i += 1;
    }
    assert(main@.take(n as int) =~= main@);
    out
}

} // verus!
