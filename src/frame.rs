use vstd::prelude::*;

use crate::bytes::{find, lemma_find_bounds, lemma_find_extend};

verus! {

/// The packet delimiter, `----------\n`.
pub open spec fn delimiter() -> Seq<u8> {
    seq![45u8, 45, 45, 45, 45, 45, 45, 45, 45, 45, 10]
}

/// The complete packets of a byte stream: the text before each delimiter.
pub open spec fn packets(s: Seq<u8>) -> Seq<Seq<u8>>
    decreases s.len(),
{
    let i = find(s, delimiter());
    if i < 0 || i + 11 > s.len() {
        seq![]
    } else {
        seq![s.subrange(0, i)] + packets(s.subrange(i + 11, s.len() as int))
    }
}

/// What follows the last delimiter of a byte stream: a packet still partial.
pub open spec fn carry(s: Seq<u8>) -> Seq<u8>
    decreases s.len(),
{
    let i = find(s, delimiter());
    if i < 0 || i + 11 > s.len() {
        s
    } else {
        carry(s.subrange(i + 11, s.len() as int))
    }
}

/// Bytes that arrive after `s` leave the complete packets of `s` as they are;
/// further packets come from the carried partial packet and the new bytes.
pub proof fn lemma_packets_append(s: Seq<u8>, c: Seq<u8>)
    ensures
        packets(s + c) == packets(s) + packets(carry(s) + c),
        carry(s + c) == carry(carry(s) + c),
    decreases s.len(),
{
    lemma_find_bounds(s, delimiter());
    let i = find(s, delimiter());
    if i < 0 {
        assert(packets(s) =~= seq![]);
        assert(packets(s) + packets(carry(s) + c) =~= packets(s + c));
    } else {
        lemma_find_extend(s, c, delimiter(), 0);
        let t = s.subrange(i + 11, s.len() as int);
        assert((s + c).subrange(0, i) =~= s.subrange(0, i));
        assert((s + c).subrange(i + 11, (s + c).len() as int) =~= t + c);
        lemma_packets_append(t, c);
        assert(packets(s + c) =~= packets(s) + packets(carry(s) + c));
    }
}

} // verus!
