use vstd::prelude::*;
use vstd::arithmetic::power2::{
    lemma_pow2_adds, lemma_pow2_strictly_increases, lemma2_to64, lemma2_to64_rest, pow2,
};

verus! {

/// The eight bytes of a 64-bit value, most significant first.
#[verifier::opaque]
pub open spec fn u64_be_bytes(x: u64) -> Seq<u8> {
    seq![
        ((x / 0x100_0000_0000_0000) % 0x100) as u8,
        ((x / 0x1_0000_0000_0000) % 0x100) as u8,
        ((x / 0x100_0000_0000) % 0x100) as u8,
        ((x / 0x1_0000_0000) % 0x100) as u8,
        ((x / 0x100_0000) % 0x100) as u8,
        ((x / 0x1_0000) % 0x100) as u8,
        ((x / 0x100) % 0x100) as u8,
        (x % 0x100) as u8,
    ]
}

/// A 64-bit value always takes eight bytes on the wire.
pub broadcast proof fn lemma_u64_be_bytes_len(x: u64)
    ensures
        (#[trigger] u64_be_bytes(x)).len() == 8,
{
    reveal(u64_be_bytes);
}

/// A 64-bit value widened to a 256-bit big-endian word.
pub open spec fn u256_be_of_u64(x: u64) -> Seq<u8> {
    Seq::new(24, |i: int| 0u8) + u64_be_bytes(x)
}

/// Tight concatenation of the message fields: three 256-bit words,
/// then the raw sender, payload and receiver bytes.
pub open spec fn encode_packed_spec(
    index: u64,
    from_chain_id: u64,
    to_chain_id: u64,
    sender: Seq<u8>,
    message: Seq<u8>,
    receiver: Seq<u8>,
) -> Seq<u8> {
    u256_be_of_u64(index) + u256_be_of_u64(from_chain_id) + u256_be_of_u64(to_chain_id) + sender
        + message + receiver
}

/// Append a 64-bit value as a 256-bit big-endian word.
fn push_u256_word(out: &mut Vec<u8>, x: u64)
    ensures
        final(out)@ == old(out)@ + u256_be_of_u64(x),
{
    let mut i: usize = 0;
    while i < 24
        invariant
            i <= 24,
            out@ =~= old(out)@ + Seq::new(i as nat, |k: int| 0u8),
        decreases 24 - i,
    {
        out.push(0);
        proof {
            assert(out@ =~= old(out)@ + Seq::new((i + 1) as nat, |k: int| 0u8));
        }
        i = i + 1;
    }
    out.push(((x / 0x100_0000_0000_0000) % 0x100) as u8);
    out.push(((x / 0x1_0000_0000_0000) % 0x100) as u8);
    out.push(((x / 0x100_0000_0000) % 0x100) as u8);
    out.push(((x / 0x1_0000_0000) % 0x100) as u8);
    out.push(((x / 0x100_0000) % 0x100) as u8);
    out.push(((x / 0x1_0000) % 0x100) as u8);
    out.push(((x / 0x100) % 0x100) as u8);
    out.push((x % 0x100) as u8);
    proof {
        reveal(u64_be_bytes);
        assert(out@ =~= old(out)@ + u256_be_of_u64(x));
    }
}

/// Append a byte string as it stands.
fn push_bytes(out: &mut Vec<u8>, b: &Vec<u8>)
    ensures
        final(out)@ == old(out)@ + b@,
{
    let mut i: usize = 0;
    while i < b.len()
        invariant
            i <= b@.len(),
            out@ =~= old(out)@ + b@.take(i as int),
        decreases b@.len() - i,
    {
        out.push(b[i]);
        proof {
            assert(out@ =~= old(out)@ + b@.take(i + 1));
        }
        i = i + 1;
    }
    proof {
        assert(b@.take(b@.len() as int) =~= b@);
    }
}

/// Big-endian value of a byte string.
pub open spec fn be_word_value(s: Seq<u8>) -> nat
    decreases s.len(),
{
    if s.len() == 0 {
        0
    } else {
        be_word_value(s.drop_last()) * 256 + s.last() as nat
    }
}

/// A 256-bit word read as a 64-bit value: defined when its high 24
/// bytes are zero, as larger values are not relayed.
pub open spec fn spec_word_u64(w: Seq<u8>) -> Option<u64> {
    if w.len() == 32 && (forall|j: int| 0 <= j < 24 ==> w[j] == 0) {
        Some(be_word_value(w) as u64)
    } else {
        None
    }
}

/// Read the 256-bit word at `pos` as a 64-bit value.
pub fn word_u64(data: &Vec<u8>, pos: usize) -> (r: Option<u64>)
    requires
        pos + 32 <= data@.len(),
    ensures
        r == spec_word_u64(data@.subrange(pos as int, pos + 32)),
{
    let ghost w: Seq<u8> = data@.subrange(pos as int, pos + 32);
    let n: usize = data.len();
    let mut acc: u64 = 0;
    let mut i: usize = 0;
    proof {
        assert(data@.len() == n);
        assert(w.take(0) =~= Seq::<u8>::empty());
        lemma2_to64();
    }
    while i < 32
        invariant
            i <= 32,
            pos + 32 <= data@.len(),
            data@.len() <= usize::MAX,
            w == data@.subrange(pos as int, pos + 32),
            acc == be_word_value(w.take(i as int)),
            forall|j: int| 0 <= j < i && j < 24 ==> w[j] == 0,
            i <= 24 ==> acc == 0,
            i > 24 ==> acc < pow2(8 * (i - 24) as nat),
        decreases 32 - i,
    {
        let b: u8 = data[pos + i];
        proof {
            assert(w.take(i + 1).drop_last() =~= w.take(i as int));
            assert(w.take(i + 1).last() == w[i as int]);
            assert(w[i as int] == data@[pos + i]);
            lemma2_to64();
            lemma2_to64_rest();
            if i >= 24 {
                let k: nat = (i - 24) as nat;
                lemma_pow2_adds(8 * k, 8);
                assert((pow2(8 * k) - 1) * 256 + 255 < pow2(8 * k) * pow2(8)) by (nonlinear_arith)
                    requires
                        pow2(8) == 256,
                        pow2(8 * k) >= 1;
                assert(acc * 256 + b < pow2(8 * k) * pow2(8)) by (nonlinear_arith)
                    requires
                        acc < pow2(8 * k),
                        b < 256,
                        (pow2(8 * k) - 1) * 256 + 255 < pow2(8 * k) * pow2(8);
                assert(pow2(8 * ((i + 1) - 24) as nat) == pow2(8 * k) * pow2(8));
                if 8 * (k + 1) < 64 {
                    lemma_pow2_strictly_increases(8 * (k + 1), 64);
                }
                assert(pow2(8 * (k + 1)) <= pow2(64));
                assert(acc * 256 + b <= u64::MAX);
            }
        }
        if i < 24 {
            if b != 0 {
                return None;
            }
            proof {
                assert(acc * 256 + b == 0);
            }
        }
        acc = acc * 256 + b as u64;
        i = i + 1;
    }
    proof {
        assert(w.take(32) =~= w);
        assert(forall|j: int| 0 <= j < 24 ==> w[j] == 0);
        assert(acc == be_word_value(w));
    }
    Some(acc)
}

/// Read a whole 32-byte word as a 64-bit value.
pub fn word_u64_of(w: &Vec<u8>) -> (r: Option<u64>)
    ensures
        r == spec_word_u64(w@),
{
    if w.len() != 32 {
        return None;
    }
    let r = word_u64(w, 0);
    proof {
        assert(w@.subrange(0, 32) =~= w@);
    }
    r
}

/// One parsed relay event: destination chain, sender address bytes,
/// payload, receiver bytes.
pub struct ParsedEvent {
    pub to_chain_id: u64,
    pub sender: Vec<u8>,
    pub message: Vec<u8>,
    pub receiver: Vec<u8>,
}

/// How the event's data section decodes: a chain-id word, a sender
/// address word, then two offset words pointing at length-prefixed
/// byte strings. Anything that does not fit is refused whole.
pub open spec fn spec_parse_event_data(data: Seq<u8>) -> Option<(u64, Seq<u8>, Seq<u8>, Seq<u8>)> {
    if data.len() < 128 {
        None
    } else {
        match spec_word_u64(data.subrange(0, 32)) {
            None => None,
            Some(chain) => {
                let sender = data.subrange(44, 64);
                match spec_word_u64(data.subrange(64, 96)) {
                    None => None,
                    Some(off_m) => match spec_word_u64(data.subrange(96, 128)) {
                        None => None,
                        Some(off_r) => spec_parse_tail(data, chain, sender, off_m, off_r),
                    },
                }
            },
        }
    }
}

/// The tail of the data section: each offset leads to a length word
/// and that many raw bytes, all inside the data.
pub open spec fn spec_parse_tail(
    data: Seq<u8>,
    chain: u64,
    sender: Seq<u8>,
    off_m: u64,
    off_r: u64,
) -> Option<(u64, Seq<u8>, Seq<u8>, Seq<u8>)> {
    if off_m + 32 > data.len() || off_r + 32 > data.len() {
        None
    } else {
        match spec_word_u64(data.subrange(off_m as int, off_m + 32)) {
            None => None,
            Some(len_m) => match spec_word_u64(data.subrange(off_r as int, off_r + 32)) {
                None => None,
                Some(len_r) => {
                    if off_m + 32 + len_m > data.len() || off_r + 32 + len_r > data.len() {
                        None
                    } else {
                        Some(
                            (
                                chain,
                                sender,
                                data.subrange(off_m + 32, off_m + 32 + len_m),
                                data.subrange(off_r + 32, off_r + 32 + len_r),
                            ),
                        )
                    }
                },
            },
        }
    }
}

/// A copy of `data[from..to]`.
pub fn copy_range(data: &Vec<u8>, from: usize, to: usize) -> (r: Vec<u8>)
    requires
        from <= to <= data@.len(),
    ensures
        r@ == data@.subrange(from as int, to as int),
{
    let mut out: Vec<u8> = Vec::new();
    let mut i: usize = from;
    while i < to
        invariant
            from <= i <= to <= data@.len(),
            out@ =~= data@.subrange(from as int, i as int),
        decreases to - i,
    {
        out.push(data[i]);
        proof {
            assert(out@ =~= data@.subrange(from as int, i + 1));
        }
        i = i + 1;
    }
    out
}

/// Decode the data section of a relay event.
pub fn parse_event_data(data: &Vec<u8>) -> (r: Option<ParsedEvent>)
    ensures
        (r is Some) <==> (spec_parse_event_data(data@) is Some),
        r matches Some(ev) ==> spec_parse_event_data(data@) == Some(
            (ev.to_chain_id, ev.sender@, ev.message@, ev.receiver@),
        ),
{
    if data.len() < 128 {
        return None;
    }
    let chain = match word_u64(data, 0) {
        Some(c) => c,
        None => {
            return None;
        },
    };
    let off_m = match word_u64(data, 64) {
        Some(o) => o,
        None => {
            return None;
        },
    };
    let off_r = match word_u64(data, 96) {
        Some(o) => o,
        None => {
            return None;
        },
    };
    let n: usize = data.len();
    if off_m > (n as u64 - 32) || off_r > (n as u64 - 32) {
        return None;
    }
    let om = off_m as usize;
    let or = off_r as usize;
    let len_m = match word_u64(data, om) {
        Some(l) => l,
        None => {
            return None;
        },
    };
    let len_r = match word_u64(data, or) {
        Some(l) => l,
        None => {
            return None;
        },
    };
    if len_m > (n - (om + 32)) as u64 || len_r > (n - (or + 32)) as u64 {
        return None;
    }
    let sender = copy_range(data, 44, 64);
    let message = copy_range(data, om + 32, om + 32 + len_m as usize);
    let receiver = copy_range(data, or + 32, or + 32 + len_r as usize);
    Some(ParsedEvent { to_chain_id: chain, sender, message, receiver })
}

/// Encode the message fields the way the destination contract hashes
/// them: no length prefixes, words big-endian.
pub fn encode_packed(
    index: u64,
    from_chain_id: u64,
    to_chain_id: u64,
    sender: &Vec<u8>,
    message: &Vec<u8>,
    receiver: &Vec<u8>,
) -> (r: Vec<u8>)
    ensures
        r@ == encode_packed_spec(index, from_chain_id, to_chain_id, sender@, message@, receiver@),
{
    let mut out: Vec<u8> = Vec::new();
    push_u256_word(&mut out, index);
    push_u256_word(&mut out, from_chain_id);
    push_u256_word(&mut out, to_chain_id);
    push_bytes(&mut out, sender);
    push_bytes(&mut out, message);
    push_bytes(&mut out, receiver);
    proof {
        assert(out@ =~= encode_packed_spec(
            index,
            from_chain_id,
            to_chain_id,
            sender@,
            message@,
            receiver@,
        ));
    }
    out
}

} // verus!
