use vstd::prelude::*;
use crate::types::balances::{Balance, BalanceView, ChainEntry, ChainEntryView};
use crate::types::principal::Principal;
use crate::types::chains::{ChainMetadata, ChainMetadataView, ChainType};
use crate::types::daemons::{Daemon, DaemonView};
use crate::types::evm_chains::{EvmChain, EvmChainView};
use crate::types::job::{Job, JobType, JobView};
use crate::types::messages::{Message, MessageView};
use crate::types::pending_tx::{PendingTransaction, PendingTransactionView};
use crate::types::{Storage, StorageView};
use crate::natural::{le_bytes_value, nat_to_le_bytes, Natural};
use crate::utils::encoding::u64_be_bytes;
use vstd::utf8::{decode_utf8, encode_utf8, valid_utf8};

verus! {

broadcast use crate::utils::encoding::lemma_u64_be_bytes_len;

// The snapshot wire format: every field is written in a fixed order,
// counts and byte strings carry their length first, so one pass reads
// the whole root back. Timer handles are not written: they die with
// the process and the host re-arms fresh ones after a restore.

/// The 64-bit value eight big-endian bytes stand for.
#[verifier::opaque]
pub open spec fn u64_of_be8(s: Seq<u8>) -> u64
    recommends
        s.len() >= 8,
{
    (s[0] * 0x100_0000_0000_0000 + s[1] * 0x1_0000_0000_0000 + s[2] * 0x100_0000_0000 + s[3]
        * 0x1_0000_0000 + s[4] * 0x100_0000 + s[5] * 0x1_0000 + s[6] * 0x100 + s[7]) as u64
}

/// Read a 64-bit value off the front of the input.
pub open spec fn sp_u64(input: Seq<u8>) -> Option<(u64, int)> {
    if input.len() >= 8 {
        Some((u64_of_be8(input), 8))
    } else {
        None
    }
}

/// Read one byte off the front of the input.
pub open spec fn sp_byte(input: Seq<u8>) -> Option<(u8, int)> {
    if input.len() >= 1 {
        Some((input[0], 1))
    } else {
        None
    }
}

/// Read a length-prefixed byte string off the front of the input.
pub open spec fn sp_bytes(input: Seq<u8>) -> Option<(Seq<u8>, int)> {
    match sp_u64(input) {
        None => None,
        Some((n, _)) => {
            if 8 + n <= input.len() {
                Some((input.subrange(8, 8 + n as int), 8 + n as int))
            } else {
                None
            }
        },
    }
}

/// Read a length-prefixed UTF-8 string off the front of the input.
pub open spec fn sp_string(input: Seq<u8>) -> Option<(Seq<char>, int)> {
    match sp_bytes(input) {
        None => None,
        Some((b, end)) => {
            if valid_utf8(b) {
                Some((decode_utf8(b), end))
            } else {
                None
            }
        },
    }
}

/// Read a length-prefixed little-endian number off the front of the
/// input.
pub open spec fn sp_nat(input: Seq<u8>) -> Option<(nat, int)> {
    match sp_bytes(input) {
        None => None,
        Some((b, end)) => Some((le_bytes_value(b), end)),
    }
}

/// Writing a value, then reading it back in front of anything, gives
/// the value and consumes exactly its bytes.
proof fn lemma_u64_round_trip(x: u64, tail: Seq<u8>)
    ensures
        sp_u64(u64_be_bytes(x) + tail) == Some((x, 8int)),
{
    reveal(u64_of_be8);
    reveal(u64_be_bytes);
    let s = u64_be_bytes(x) + tail;
    assert(s[0] == u64_be_bytes(x)[0]);
    assert(s[1] == u64_be_bytes(x)[1]);
    assert(s[2] == u64_be_bytes(x)[2]);
    assert(s[3] == u64_be_bytes(x)[3]);
    assert(s[4] == u64_be_bytes(x)[4]);
    assert(s[5] == u64_be_bytes(x)[5]);
    assert(s[6] == u64_be_bytes(x)[6]);
    assert(s[7] == u64_be_bytes(x)[7]);
    assert(((x / 0x100_0000_0000_0000) % 0x100) * 0x100_0000_0000_0000 + ((x / 0x1_0000_0000_0000)
        % 0x100) * 0x1_0000_0000_0000 + ((x / 0x100_0000_0000) % 0x100) * 0x100_0000_0000 + ((x
        / 0x1_0000_0000) % 0x100) * 0x1_0000_0000 + ((x / 0x100_0000) % 0x100) * 0x100_0000 + ((x
        / 0x1_0000) % 0x100) * 0x1_0000 + ((x / 0x100) % 0x100) * 0x100 + x % 0x100 == x)
        by (bit_vector);
}

/// Append a 64-bit value.
fn emit_u64(out: &mut Vec<u8>, x: u64)
    ensures
        final(out)@ == old(out)@ + u64_be_bytes(x),
{
    out.push(((x / 0x100_0000_0000_0000) % 0x100) as u8);
    out.push(((x / 0x1_0000_0000_0000) % 0x100) as u8);
    out.push(((x / 0x100_0000_0000) % 0x100) as u8);
    out.push(((x / 0x1_0000_0000) % 0x100) as u8);
    out.push(((x / 0x100_0000) % 0x100) as u8);
    out.push(((x / 0x1_0000) % 0x100) as u8);
    out.push(((x / 0x100) % 0x100) as u8);
    out.push((x % 0x100) as u8);
    proof {
        reveal(u64_be_bytes);
        assert(out@ =~= old(out)@ + u64_be_bytes(x));
    }
}

/// Append one byte.
fn emit_byte(out: &mut Vec<u8>, b: u8)
    ensures
        final(out)@ == old(out)@ + seq![b],
{
    out.push(b);
    proof {
        assert(out@ =~= old(out)@ + seq![b]);
    }
}

/// The wire form of a byte string.
pub open spec fn enc_bytes(b: Seq<u8>) -> Seq<u8> {
    u64_be_bytes(b.len() as u64) + b
}

/// Reading an encoded byte string in front of anything gives the
/// string back.
proof fn lemma_bytes_round_trip(b: Seq<u8>, tail: Seq<u8>)
    requires
        b.len() <= u64::MAX,
    ensures
        sp_bytes(enc_bytes(b) + tail) == Some((b, 8 + b.len() as int)),
{
    let s = enc_bytes(b) + tail;
    assert(s =~= u64_be_bytes(b.len() as u64) + (b + tail));
    lemma_u64_round_trip(b.len() as u64, b + tail);
    assert(s.subrange(8, 8 + b.len() as int) =~= b);
}

/// Append a length-prefixed byte string.
fn emit_bytes(out: &mut Vec<u8>, b: &Vec<u8>)
    ensures
        final(out)@ == old(out)@ + enc_bytes(b@),
        bytes_ok(b@),
{
    let n: usize = b.len();
    emit_u64(out, n as u64);
    let mut i: usize = 0;
    let ghost mid = out@;
    while i < n
        invariant
            i <= n,
            n == b@.len(),
            out@ =~= mid + b@.take(i as int),
        decreases n - i,
    {
        out.push(b[i]);
        proof {
            assert(out@ =~= mid + b@.take(i + 1));
        }
        i = i + 1;
    }
    proof {
        assert(b@.take(n as int) =~= b@);
        assert(out@ =~= old(out)@ + enc_bytes(b@));
    }
}

/// Append a length-prefixed string as UTF-8.
fn emit_string(out: &mut Vec<u8>, s: &String)
    ensures
        final(out)@ == old(out)@ + enc_string(s@),
        str_ok(s@),
{
    let bytes = s.as_str().as_bytes_vec();
    emit_bytes(out, &bytes);
}

/// Append a length-prefixed number.
fn emit_natural(out: &mut Vec<u8>, n: &Natural)
    ensures
        final(out)@ == old(out)@ + enc_nat(n@),
        nat_ok(n@),
{
    let bytes = n.to_le_bytes();
    emit_bytes(out, &bytes);
}

/// Read a 64-bit value.
fn parse_u64(data: &Vec<u8>, pos: usize) -> (r: Option<(u64, usize)>)
    requires
        pos <= data@.len(),
    ensures
        (r is Some) <==> (sp_u64(data@.skip(pos as int)) is Some),
        r matches Some(p) ==> sp_u64(data@.skip(pos as int)) == Some((p.0, p.1 - pos as int))
            && pos < p.1 <= data@.len(),
{
    if data.len() - pos < 8 {
        return None;
    }
    let b0 = data[pos];
    let b1 = data[pos + 1];
    let b2 = data[pos + 2];
    let b3 = data[pos + 3];
    let b4 = data[pos + 4];
    let b5 = data[pos + 5];
    let b6 = data[pos + 6];
    let b7 = data[pos + 7];
    let x: u64 = (b0 as u64) * 0x100_0000_0000_0000 + (b1 as u64) * 0x1_0000_0000_0000 + (
    b2 as u64) * 0x100_0000_0000 + (b3 as u64) * 0x1_0000_0000 + (b4 as u64) * 0x100_0000 + (
    b5 as u64) * 0x1_0000 + (b6 as u64) * 0x100 + (b7 as u64);
    proof {
        reveal(u64_of_be8);
        let s = data@.skip(pos as int);
        assert(s[0] == b0 && s[1] == b1 && s[2] == b2 && s[3] == b3);
        assert(s[4] == b4 && s[5] == b5 && s[6] == b6 && s[7] == b7);
    }
    Some((x, pos + 8))
}

/// Read one byte.
fn parse_byte(data: &Vec<u8>, pos: usize) -> (r: Option<(u8, usize)>)
    requires
        pos <= data@.len(),
    ensures
        (r is Some) <==> (sp_byte(data@.skip(pos as int)) is Some),
        r matches Some(p) ==> sp_byte(data@.skip(pos as int)) == Some((p.0, p.1 - pos as int))
            && pos < p.1 <= data@.len(),
{
    if pos >= data.len() {
        return None;
    }
    proof {
        assert(data@.skip(pos as int)[0] == data@[pos as int]);
    }
    Some((data[pos], pos + 1))
}

/// Read a length-prefixed byte string.
fn parse_bytes(data: &Vec<u8>, pos: usize) -> (r: Option<(Vec<u8>, usize)>)
    requires
        pos <= data@.len(),
    ensures
        (r is Some) <==> (sp_bytes(data@.skip(pos as int)) is Some),
        r matches Some(p) ==> sp_bytes(data@.skip(pos as int)) == Some((p.0@, p.1 - pos as int))
            && pos < p.1 <= data@.len(),
{
    let (n, after) = match parse_u64(data, pos) {
        Some(p) => p,
        None => {
            return None;
        },
    };
    if n > (data.len() - after) as u64 {
        proof {
            let s = data@.skip(pos as int);
            assert(s.len() == data@.len() - pos);
        }
        return None;
    }
    let end = after + n as usize;
    let body = crate::utils::encoding::copy_range(data, after, end);
    proof {
        let s = data@.skip(pos as int);
        assert(s.subrange(8, 8 + n as int) =~= data@.subrange(after as int, end as int));
    }
    Some((body, end))
}

/// Read a length-prefixed UTF-8 string.
fn parse_string(data: &Vec<u8>, pos: usize) -> (r: Option<(String, usize)>)
    requires
        pos <= data@.len(),
    ensures
        (r is Some) <==> (sp_string(data@.skip(pos as int)) is Some),
        r matches Some(p) ==> sp_string(data@.skip(pos as int)) == Some((p.0@, p.1 - pos as int))
            && pos < p.1 <= data@.len(),
{
    let (body, end) = match parse_bytes(data, pos) {
        Some(p) => p,
        None => {
            return None;
        },
    };
    match crate::utils::hexcodec::utf8_to_string(body) {
        Some(s) => Some((s, end)),
        None => None,
    }
}

/// Read a length-prefixed number.
fn parse_natural(data: &Vec<u8>, pos: usize) -> (r: Option<(Natural, usize)>)
    requires
        pos <= data@.len(),
    ensures
        (r is Some) <==> (sp_nat(data@.skip(pos as int)) is Some),
        r matches Some(p) ==> sp_nat(data@.skip(pos as int)) == Some((p.0@, p.1 - pos as int))
            && pos < p.1 <= data@.len(),
{
    let (body, end) = match parse_bytes(data, pos) {
        Some(p) => p,
        None => {
            return None;
        },
    };
    Some((Natural::from_le_bytes(&body), end))
}

/// All item encodings, stitched in order.
pub open spec fn concat_all(encs: Seq<Seq<u8>>) -> Seq<u8>
    decreases encs.len(),
{
    if encs.len() == 0 {
        Seq::empty()
    } else {
        encs.first() + concat_all(encs.drop_first())
    }
}

/// Read `n` items in a row with one item reader.
pub open spec fn sp_items<V>(
    input: Seq<u8>,
    n: nat,
    sp: spec_fn(Seq<u8>) -> Option<(V, int)>,
) -> Option<(Seq<V>, int)>
    decreases n,
{
    if n == 0 {
        Some((Seq::empty(), 0))
    } else {
        match sp(input) {
            None => None,
            Some((v, c)) => {
                if 0 <= c <= input.len() {
                    match sp_items(input.skip(c), (n - 1) as nat, sp) {
                        None => None,
                        Some((vs, c2)) => Some((seq![v] + vs, c + c2)),
                    }
                } else {
                    None
                }
            },
        }
    }
}

/// Read a count, then that many items.
pub open spec fn sp_counted<V>(input: Seq<u8>, sp: spec_fn(Seq<u8>) -> Option<(V, int)>) -> Option<
    (Seq<V>, int),
> {
    match sp_u64(input) {
        None => None,
        Some((n, _)) => {
            if input.len() >= 8 {
                match sp_items(input.skip(8), n as nat, sp) {
                    None => None,
                    Some((vs, c)) => Some((vs, 8 + c)),
                }
            } else {
                None
            }
        },
    }
}

/// Items written one after another read back as themselves, whatever
/// follows.
proof fn lemma_items_round_trip<V>(
    encs: Seq<Seq<u8>>,
    vals: Seq<V>,
    sp: spec_fn(Seq<u8>) -> Option<(V, int)>,
    tail: Seq<u8>,
)
    requires
        encs.len() == vals.len(),
        forall|k: int, t: Seq<u8>|
            0 <= k < encs.len() ==> #[trigger] sp(encs[k] + t) == Some(
                (vals[k], encs[k].len() as int),
            ),
    ensures
        sp_items(concat_all(encs) + tail, encs.len() as nat, sp) == Some(
            (vals, concat_all(encs).len() as int),
        ),
    decreases encs.len(),
{
    if encs.len() == 0 {
        assert(concat_all(encs) + tail =~= tail);
        assert(vals =~= Seq::<V>::empty());
    } else {
        let e0 = encs.first();
        let rest = encs.drop_first();
        let vrest = vals.drop_first();
        assert(concat_all(encs) + tail =~= e0 + (concat_all(rest) + tail));
        assert(sp(e0 + (concat_all(rest) + tail)) == Some((vals[0], e0.len() as int)));
        assert((e0 + (concat_all(rest) + tail)).skip(e0.len() as int) =~= concat_all(rest) + tail);
        assert(forall|k: int, t: Seq<u8>|
            0 <= k < rest.len() ==> #[trigger] sp(rest[k] + t) == Some(
                (vrest[k], rest[k].len() as int),
            )) by {
            assert(forall|k: int| 0 <= k < rest.len() ==> rest[k] == encs[k + 1]);
        }
        lemma_items_round_trip(rest, vrest, sp, tail);
        assert(seq![vals[0]] + vrest =~= vals);
    }
}

/// Adding one more encoding extends the stitched bytes at the end.
proof fn lemma_concat_all_push(encs: Seq<Seq<u8>>, e: Seq<u8>)
    ensures
        concat_all(encs.push(e)) =~= concat_all(encs) + e,
    decreases encs.len(),
{
    if encs.len() == 0 {
        assert(encs.push(e).first() == e);
        assert(encs.push(e).drop_first() =~= Seq::<Seq<u8>>::empty());
        assert(concat_all(Seq::<Seq<u8>>::empty()) =~= Seq::<u8>::empty());
        assert(concat_all(encs.push(e)) =~= e + concat_all(Seq::<Seq<u8>>::empty()));
        assert(concat_all(encs) =~= Seq::<u8>::empty());
        assert(e + Seq::<u8>::empty() =~= e);
    } else {
        assert(encs.push(e).first() == encs.first());
        assert(encs.push(e).drop_first() =~= encs.drop_first().push(e));
        lemma_concat_all_push(encs.drop_first(), e);
        assert(concat_all(encs.push(e)) =~= encs.first() + (concat_all(encs.drop_first()) + e));
    }
}


/// Read an optional byte string: a presence byte, then the string.
pub open spec fn sp_opt_bytes(input: Seq<u8>) -> Option<(Option<Seq<u8>>, int)> {
    match sp_byte(input) {
        None => None,
        Some((t, _)) => {
            if t == 0 {
                Some((None, 1))
            } else if t == 1 {
                match sp_bytes(input.skip(1)) {
                    None => None,
                    Some((b, c)) => Some((Some(b), 1 + c)),
                }
            } else {
                None
            }
        },
    }
}

/// Read an optional byte string.
fn parse_opt_bytes(data: &Vec<u8>, pos: usize) -> (r: Option<(Option<Vec<u8>>, usize)>)
    requires
        pos <= data@.len(),
    ensures
        (r is Some) <==> (sp_opt_bytes(data@.skip(pos as int)) is Some),
        r matches Some(p) ==> (sp_opt_bytes(data@.skip(pos as int)) matches Some(sv) && sv.1 == p.1
            - pos as int && (match (p.0, sv.0) {
            (Some(v), Some(s)) => v@ == s,
            (None, None) => true,
            _ => false,
        })) && pos < p.1 <= data@.len(),
{
    let (t, after) = match parse_byte(data, pos) {
        Some(p) => p,
        None => {
            return None;
        },
    };
    proof {
        assert(data@.skip(pos as int).skip(1) =~= data@.skip(after as int));
    }
    if t == 0 {
        Some((None, after))
    } else if t == 1 {
        match parse_bytes(data, after) {
            Some((v, end)) => Some((Some(v), end)),
            None => None,
        }
    } else {
        None
    }
}

/// The wire mark of a stage kind.
pub open spec fn job_type_byte(t: JobType) -> u8 {
    match t {
        JobType::Signer => 0,
        JobType::Writer => 1,
        JobType::Checker => 2,
        JobType::Unknown => 3,
    }
}

/// The stage kind behind a wire mark.
pub open spec fn job_type_of(b: u8) -> JobType {
    if b == 0 {
        JobType::Signer
    } else if b == 1 {
        JobType::Writer
    } else if b == 2 {
        JobType::Checker
    } else {
        JobType::Unknown
    }
}

/// Read a stage job: period, duty flag, kind. The timer handle is
/// never on the wire; a read job waits for a fresh one.
#[verifier::opaque]
pub open spec fn sp_job(input: Seq<u8>) -> Option<(JobView, int)> {
    match sp_u64(input) {
        None => None,
        Some((interval, _)) => match sp_byte(input.skip(8)) {
            None => None,
            Some((a, _)) => match sp_byte(input.skip(9)) {
                None => None,
                Some((k, _)) => {
                    if a <= 1 && k <= 3 {
                        Some(
                            (
                                JobView {
                                    interval_secs: interval,
                                    timer_id: None,
                                    is_active: a == 1,
                                    job_type: job_type_of(k),
                                },
                                10,
                            ),
                        )
                    } else {
                        None
                    }
                },
            },
        },
    }
}

/// A job's view with its timer handle forgotten.
pub open spec fn scrub_job(j: JobView) -> JobView {
    JobView { timer_id: None, ..j }
}

/// Read a stage job.
fn parse_job(data: &Vec<u8>, pos: usize) -> (r: Option<(Job, usize)>)
    requires
        pos <= data@.len(),
    ensures
        (r is Some) <==> (sp_job(data@.skip(pos as int)) is Some),
        r matches Some(p) ==> sp_job(data@.skip(pos as int)) == Some((p.0@, p.1 - pos as int))
            && pos < p.1 <= data@.len(),
{
    proof {
        reveal(sp_job);
    }
    let (interval, c1) = match parse_u64(data, pos) {
        Some(p) => p,
        None => {
            return None;
        },
    };
    proof {
        assert(data@.skip(pos as int).skip(8) =~= data@.skip(c1 as int));
    }
    let (a, c2) = match parse_byte(data, c1) {
        Some(p) => p,
        None => {
            return None;
        },
    };
    proof {
        assert(data@.skip(pos as int).skip(9) =~= data@.skip(c2 as int));
    }
    let (k, c3) = match parse_byte(data, c2) {
        Some(p) => p,
        None => {
            return None;
        },
    };
    if a > 1 || k > 3 {
        return None;
    }
    let job_type = if k == 0 {
        JobType::Signer
    } else if k == 1 {
        JobType::Writer
    } else if k == 2 {
        JobType::Checker
    } else {
        JobType::Unknown
    };
    Some((Job::restored(interval, job_type, a == 1), c3))
}

/// The wire form of a string.
pub open spec fn enc_string(s: Seq<char>) -> Seq<u8> {
    enc_bytes(encode_utf8(s))
}

/// The wire form of a number.
pub open spec fn enc_nat(n: nat) -> Seq<u8> {
    enc_bytes(nat_to_le_bytes(n))
}

/// Whether a byte string fits its length prefix.
pub open spec fn bytes_ok(s: Seq<u8>) -> bool {
    s.len() <= u64::MAX
}

/// Whether a string's encoding fits its length prefix.
pub open spec fn str_ok(s: Seq<char>) -> bool {
    encode_utf8(s).len() <= u64::MAX
}

/// Whether a number's rendering fits its length prefix.
pub open spec fn nat_ok(n: nat) -> bool {
    nat_to_le_bytes(n).len() <= u64::MAX
}

/// An encoded string reads back as itself.
#[verifier::rlimit(100)]
proof fn lemma_string_round_trip(s: Seq<char>, tail: Seq<u8>)
    requires
        str_ok(s),
    ensures
        sp_string(enc_string(s) + tail) == Some((s, enc_string(s).len() as int)),
{
    lemma_bytes_round_trip(encode_utf8(s), tail);
    vstd::utf8::encode_utf8_valid_utf8(s);
    vstd::utf8::encode_utf8_decode_utf8(s);
}

/// An encoded number reads back as itself.
#[verifier::rlimit(100)]
proof fn lemma_nat_round_trip(n: nat, tail: Seq<u8>)
    requires
        nat_ok(n),
    ensures
        sp_nat(enc_nat(n) + tail) == Some((n, enc_nat(n).len() as int)),
{
    lemma_bytes_round_trip(nat_to_le_bytes(n), tail);
    crate::natural::lemma_le_bytes_round_trip(n);
}

/// A count followed by that many written items reads back as the
/// items.
proof fn lemma_counted_round_trip<V>(
    encs: Seq<Seq<u8>>,
    vals: Seq<V>,
    sp: spec_fn(Seq<u8>) -> Option<(V, int)>,
    tail: Seq<u8>,
)
    requires
        encs.len() == vals.len(),
        encs.len() <= u64::MAX,
        forall|k: int, t: Seq<u8>|
            0 <= k < encs.len() ==> #[trigger] sp(encs[k] + t) == Some(
                (vals[k], encs[k].len() as int),
            ),
    ensures
        sp_counted(u64_be_bytes(encs.len() as u64) + concat_all(encs) + tail, sp) == Some(
            (vals, 8 + concat_all(encs).len() as int),
        ),
{
    let whole = u64_be_bytes(encs.len() as u64) + concat_all(encs) + tail;
    assert(whole =~= u64_be_bytes(encs.len() as u64) + (concat_all(encs) + tail));
    lemma_u64_round_trip(encs.len() as u64, concat_all(encs) + tail);
    assert(whole.skip(8) =~= concat_all(encs) + tail);
    lemma_items_round_trip(encs, vals, sp, tail);
}

/// The wire form of an optional byte string.
pub open spec fn enc_opt_bytes(o: Option<Seq<u8>>) -> Seq<u8> {
    match o {
        None => seq![0u8],
        Some(b) => seq![1u8] + enc_bytes(b),
    }
}

/// An encoded optional byte string reads back as itself.
#[verifier::rlimit(100)]
proof fn lemma_opt_bytes_round_trip(o: Option<Seq<u8>>, tail: Seq<u8>)
    requires
        o matches Some(b) ==> bytes_ok(b),
    ensures
        sp_opt_bytes(enc_opt_bytes(o) + tail) == Some((o, enc_opt_bytes(o).len() as int)),
{
    match o {
        None => {
            assert((enc_opt_bytes(o) + tail)[0] == 0u8);
        },
        Some(b) => {
            let whole = enc_opt_bytes(o) + tail;
            assert(whole[0] == 1u8);
            assert(whole.skip(1) =~= enc_bytes(b) + tail);
            lemma_bytes_round_trip(b, tail);
        },
    }
}

/// Append an optional byte string.
#[verifier::rlimit(100)]
fn emit_opt_bytes(out: &mut Vec<u8>, b: &Option<Vec<u8>>)
    ensures
        final(out)@ == old(out)@ + enc_opt_bytes(
            match b {
                Some(v) => Some(v@),
                None => None,
            },
        ),
        (match b {
            Some(v) => bytes_ok(v@),
            None => true,
        }),
{
    match b {
        None => {
            emit_byte(out, 0);
            proof {
                assert(out@ =~= old(out)@ + enc_opt_bytes(Option::<Seq<u8>>::None));
            }
        },
        Some(v) => {
            emit_byte(out, 1);
            emit_bytes(out, v);
            proof {
                assert(out@ =~= old(out)@ + enc_opt_bytes(Some(v@)));
            }
        },
    }
}

/// The wire form of a stage job: its timer handle stays off the wire.
pub open spec fn enc_job(j: JobView) -> Seq<u8> {
    u64_be_bytes(j.interval_secs) + seq![
        (if j.is_active {
            1u8
        } else {
            0u8
        }),
        job_type_byte(j.job_type),
    ]
}

/// An encoded job reads back with its timer gone.
proof fn lemma_job_round_trip(j: JobView, tail: Seq<u8>)
    ensures
        sp_job(enc_job(j) + tail) == Some((scrub_job(j), enc_job(j).len() as int)),
{
    reveal(sp_job);
    let whole = enc_job(j) + tail;
    let ab: u8 = if j.is_active {
        1u8
    } else {
        0u8
    };
    let rest = seq![ab, job_type_byte(j.job_type)] + tail;
    assert(whole =~= u64_be_bytes(j.interval_secs) + rest);
    lemma_u64_round_trip(j.interval_secs, rest);
    assert(whole.skip(8) =~= rest);
    assert(whole.skip(8)[0] == ab);
    assert(whole.skip(9) =~= rest.skip(1));
    assert(whole.skip(9)[0] == job_type_byte(j.job_type));
}

/// Append a stage job.
fn emit_job(out: &mut Vec<u8>, j: &Job)
    ensures
        final(out)@ == old(out)@ + enc_job(j@),
{
    emit_u64(out, j.interval_secs());
    emit_byte(
        out,
        if j.is_active() {
            1
        } else {
            0
        },
    );
    emit_byte(
        out,
        match j.kind_value() {
            JobType::Signer => 0,
            JobType::Writer => 1,
            JobType::Checker => 2,
            JobType::Unknown => 3,
        },
    );
    proof {
        assert(out@ =~= old(out)@ + enc_job(j@));
    }
}

/// The wire mark of a chain kind.
pub open spec fn chain_type_byte(t: ChainType) -> u8 {
    match t {
        ChainType::Unknown => 0,
        ChainType::Evm => 1,
    }
}

/// The chain kind behind a wire mark.
pub open spec fn chain_type_of(b: u8) -> ChainType {
    if b == 1 {
        ChainType::Evm
    } else {
        ChainType::Unknown
    }
}

/// The wire form of a metadata slot.
pub open spec fn enc_meta_slot(o: Option<ChainMetadataView>) -> Seq<u8> {
    match o {
        None => seq![0u8],
        Some(m) => seq![1u8] + enc_string(m.name) + seq![chain_type_byte(m.chain_type)],
    }
}

/// Read a metadata slot.
#[verifier::opaque]
pub open spec fn sp_meta_slot(input: Seq<u8>) -> Option<(Option<ChainMetadataView>, int)> {
    match sp_byte(input) {
        None => None,
        Some((t, _)) => {
            if t == 0 {
                Some((None, 1))
            } else if t == 1 {
                match sp_string(input.skip(1)) {
                    None => None,
                    Some((name, c)) => match sp_byte(input.skip(1 + c)) {
                        None => None,
                        Some((tb, _)) => {
                            if tb <= 1 {
                                Some(
                                    (
                                        Some(
                                            ChainMetadataView {
                                                name,
                                                chain_type: chain_type_of(tb),
                                            },
                                        ),
                                        2 + c,
                                    ),
                                )
                            } else {
                                None
                            }
                        },
                    },
                }
            } else {
                None
            }
        },
    }
}

/// An encoded metadata slot reads back as itself.
#[verifier::rlimit(100)]
proof fn lemma_meta_slot_round_trip(o: Option<ChainMetadataView>, tail: Seq<u8>)
    requires
        o matches Some(m) ==> str_ok(m.name),
    ensures
        sp_meta_slot(enc_meta_slot(o) + tail) == Some((o, enc_meta_slot(o).len() as int)),
{
    reveal(sp_meta_slot);
    match o {
        None => {
            assert((enc_meta_slot(o) + tail)[0] == 0u8);
        },
        Some(m) => {
            let whole = enc_meta_slot(o) + tail;
            let tb = seq![chain_type_byte(m.chain_type)];
            assert(whole[0] == 1u8);
            assert(whole.skip(1) =~= enc_string(m.name) + (tb + tail));
            lemma_string_round_trip(m.name, tb + tail);
            let c = enc_string(m.name).len() as int;
            assert(whole.skip(1 + c) =~= tb + tail);
            assert(whole.skip(1 + c)[0] == chain_type_byte(m.chain_type));
            assert(chain_type_of(chain_type_byte(m.chain_type)) == m.chain_type);
        },
    }
}

/// Append a metadata slot.
#[verifier::rlimit(100)]
fn emit_meta_slot(out: &mut Vec<u8>, o: &Option<ChainMetadata>)
    ensures
        final(out)@ == old(out)@ + enc_meta_slot(
            match o {
                Some(m) => Some(m@),
                None => None,
            },
        ),
        (match o {
            Some(m) => str_ok(m@.name),
            None => true,
        }),
{
    match o {
        None => {
            emit_byte(out, 0);
            proof {
                assert(out@ =~= old(out)@ + enc_meta_slot(Option::<ChainMetadataView>::None));
            }
        },
        Some(m) => {
            emit_byte(out, 1);
            emit_string(out, &m.name);
            emit_byte(
                out,
                match m.chain_type {
                    ChainType::Unknown => 0,
                    ChainType::Evm => 1,
                },
            );
            proof {
                assert(out@ =~= old(out)@ + enc_meta_slot(Some(m@)));
            }
        },
    }
}

/// Read a metadata slot.
fn parse_meta_slot(data: &Vec<u8>, pos: usize) -> (r: Option<(Option<ChainMetadata>, usize)>)
    requires
        pos <= data@.len(),
    ensures
        (r is Some) <==> (sp_meta_slot(data@.skip(pos as int)) is Some),
        r matches Some(p) ==> (sp_meta_slot(data@.skip(pos as int)) matches Some(sv) && sv.1 == p.1
            - pos as int && (match (p.0, sv.0) {
            (Some(m), Some(s)) => m@ == s,
            (None, None) => true,
            _ => false,
        })) && pos < p.1 <= data@.len(),
{
    proof {
        reveal(sp_meta_slot);
    }
    let (t, after) = match parse_byte(data, pos) {
        Some(p) => p,
        None => {
            return None;
        },
    };
    proof {
        assert(data@.skip(pos as int).skip(1) =~= data@.skip(after as int));
    }
    if t == 0 {
        return Some((None, after));
    }
    if t != 1 {
        return None;
    }
    let (name, c1) = match parse_string(data, after) {
        Some(p) => p,
        None => {
            return None;
        },
    };
    proof {
        assert(data@.skip(pos as int).skip(1 + (c1 - after)) =~= data@.skip(c1 as int));
    }
    let (tb, c2) = match parse_byte(data, c1) {
        Some(p) => p,
        None => {
            return None;
        },
    };
    if tb > 1 {
        return None;
    }
    let chain_type = if tb == 1 {
        ChainType::Evm
    } else {
        ChainType::Unknown
    };
    Some((Some(ChainMetadata { name, chain_type }), c2))
}

/// The wire form of an EVM client slot.
pub open spec fn enc_evm_slot(o: Option<EvmChainView>) -> Seq<u8> {
    match o {
        None => seq![0u8],
        Some(c) => seq![1u8] + enc_string(c.name) + u64_be_bytes(c.id) + enc_string(c.rpc),
    }
}

/// Read an EVM client slot.
#[verifier::opaque]
pub open spec fn sp_evm_slot(input: Seq<u8>) -> Option<(Option<EvmChainView>, int)> {
    match sp_byte(input) {
        None => None,
        Some((t, _)) => {
            if t == 0 {
                Some((None, 1))
            } else if t == 1 {
                match sp_string(input.skip(1)) {
                    None => None,
                    Some((name, c1)) => match sp_u64(input.skip(1 + c1)) {
                        None => None,
                        Some((id, _)) => match sp_string(input.skip(9 + c1)) {
                            None => None,
                            Some((rpc, c2)) => Some(
                                (Some(EvmChainView { name, id, rpc }), 9 + c1 + c2),
                            ),
                        },
                    },
                }
            } else {
                None
            }
        },
    }
}

/// An encoded EVM client slot reads back as itself.
#[verifier::rlimit(100)]
proof fn lemma_evm_slot_round_trip(o: Option<EvmChainView>, tail: Seq<u8>)
    requires
        o matches Some(c) ==> str_ok(c.name) && str_ok(c.rpc),
    ensures
        sp_evm_slot(enc_evm_slot(o) + tail) == Some((o, enc_evm_slot(o).len() as int)),
{
    reveal(sp_evm_slot);
    match o {
        None => {
            assert((enc_evm_slot(o) + tail)[0] == 0u8);
        },
        Some(c) => {
            let whole = enc_evm_slot(o) + tail;
            let e1 = enc_string(c.name);
            let e2 = u64_be_bytes(c.id);
            let e3 = enc_string(c.rpc);
            assert(whole[0] == 1u8);
            assert(whole.skip(1) =~= e1 + (e2 + (e3 + tail)));
            lemma_string_round_trip(c.name, e2 + (e3 + tail));
            let c1 = e1.len() as int;
            assert(whole.skip(1 + c1) =~= e2 + (e3 + tail));
            lemma_u64_round_trip(c.id, e3 + tail);
            assert(whole.skip(9 + c1) =~= e3 + tail);
            lemma_string_round_trip(c.rpc, tail);
        },
    }
}

/// Append an EVM client slot.
#[verifier::rlimit(100)]
fn emit_evm_slot(out: &mut Vec<u8>, o: &Option<EvmChain>)
    ensures
        final(out)@ == old(out)@ + enc_evm_slot(
            match o {
                Some(c) => Some(c@),
                None => None,
            },
        ),
        (match o {
            Some(c) => str_ok(c@.name) && str_ok(c@.rpc),
            None => true,
        }),
{
    match o {
        None => {
            emit_byte(out, 0);
            proof {
                assert(out@ =~= old(out)@ + enc_evm_slot(Option::<EvmChainView>::None));
            }
        },
        Some(c) => {
            emit_byte(out, 1);
            emit_string(out, &c.name);
            emit_u64(out, c.id);
            emit_string(out, &c.rpc);
            proof {
                assert(out@ =~= old(out)@ + enc_evm_slot(Some(c@)));
            }
        },
    }
}

/// Read an EVM client slot.
fn parse_evm_slot(data: &Vec<u8>, pos: usize) -> (r: Option<(Option<EvmChain>, usize)>)
    requires
        pos <= data@.len(),
    ensures
        (r is Some) <==> (sp_evm_slot(data@.skip(pos as int)) is Some),
        r matches Some(p) ==> (sp_evm_slot(data@.skip(pos as int)) matches Some(sv) && sv.1 == p.1
            - pos as int && (match (p.0, sv.0) {
            (Some(c), Some(s)) => c@ == s,
            (None, None) => true,
            _ => false,
        })) && pos < p.1 <= data@.len(),
{
    proof {
        reveal(sp_evm_slot);
    }
    let (t, after) = match parse_byte(data, pos) {
        Some(p) => p,
        None => {
            return None;
        },
    };
    proof {
        assert(data@.skip(pos as int).skip(1) =~= data@.skip(after as int));
    }
    if t == 0 {
        return Some((None, after));
    }
    if t != 1 {
        return None;
    }
    let (name, c1) = match parse_string(data, after) {
        Some(p) => p,
        None => {
            return None;
        },
    };
    proof {
        assert(data@.skip(pos as int).skip(1 + (c1 - after)) =~= data@.skip(c1 as int));
    }
    let (id, c2) = match parse_u64(data, c1) {
        Some(p) => p,
        None => {
            return None;
        },
    };
    proof {
        assert(data@.skip(pos as int).skip(9 + (c1 - after)) =~= data@.skip(c2 as int));
    }
    let (rpc, c3) = match parse_string(data, c2) {
        Some(p) => p,
        None => {
            return None;
        },
    };
    Some((Some(EvmChain { name, id, rpc }), c3))
}

/// The reader for bare 64-bit values.
pub open spec fn u64_reader() -> spec_fn(Seq<u8>) -> Option<(u64, int)> {
    |inp: Seq<u8>| sp_u64(inp)
}

/// Read a counted run of 64-bit values.
pub open spec fn sp_u64s(input: Seq<u8>) -> Option<(Seq<u64>, int)> {
    sp_counted(input, u64_reader())
}

/// The wire form of a counted run of 64-bit values.
pub open spec fn enc_u64s(xs: Seq<u64>) -> Seq<u8> {
    u64_be_bytes(xs.len() as u64) + concat_all(xs.map_values(|x: u64| u64_be_bytes(x)))
}

/// An encoded run of 64-bit values reads back as itself.
proof fn lemma_u64s_round_trip(xs: Seq<u64>, tail: Seq<u8>)
    requires
        xs.len() <= u64::MAX,
    ensures
        sp_u64s(enc_u64s(xs) + tail) == Some((xs, enc_u64s(xs).len() as int)),
{
    let encs = xs.map_values(|x: u64| u64_be_bytes(x));
    assert forall|k: int, t: Seq<u8>|
        0 <= k < encs.len() implies #[trigger] u64_reader()(encs[k] + t) == Some(
        (xs[k], encs[k].len() as int),
    ) by {
        lemma_u64_round_trip(xs[k], t);
    }
    lemma_counted_round_trip(encs, xs, u64_reader(), tail);
    assert(enc_u64s(xs) + tail =~= u64_be_bytes(encs.len() as u64) + concat_all(encs) + tail);
}

/// Append a counted run of 64-bit values.
fn emit_u64s(out: &mut Vec<u8>, xs: &Vec<u64>)
    ensures
        final(out)@ == old(out)@ + enc_u64s(xs@),
        xs@.len() <= u64::MAX,
{
    let ghost base = out@;
    let n: usize = xs.len();
    emit_u64(out, n as u64);
    let mut i: usize = 0;
    proof {
        assert(concat_all(xs@.take(0).map_values(|x: u64| u64_be_bytes(x))) =~= Seq::<u8>::empty());
        assert(out@ =~= base + u64_be_bytes(n as u64) + concat_all(
            xs@.take(0).map_values(|x: u64| u64_be_bytes(x)),
        ));
    }
    while i < n
        invariant
            i <= n,
            n == xs@.len(),
            out@ =~= base + u64_be_bytes(n as u64) + concat_all(
                xs@.take(i as int).map_values(|x: u64| u64_be_bytes(x)),
            ),
        decreases n - i,
    {
        emit_u64(out, xs[i]);
        proof {
            let f = |x: u64| u64_be_bytes(x);
            assert(xs@.take(i + 1).map_values(f) =~= xs@.take(i as int).map_values(f).push(
                u64_be_bytes(xs@[i as int]),
            ));
            lemma_concat_all_push(xs@.take(i as int).map_values(f), u64_be_bytes(xs@[i as int]));
            assert(out@ =~= base + u64_be_bytes(n as u64) + concat_all(
                xs@.take(i + 1).map_values(f),
            ));
        }
        i = i + 1;
    }
    proof {
        assert(xs@.take(n as int) =~= xs@);
        assert(out@ =~= base + enc_u64s(xs@));
    }
}

/// Read a counted run of 64-bit values.
fn parse_u64s(data: &Vec<u8>, pos: usize) -> (r: Option<(Vec<u64>, usize)>)
    requires
        pos <= data@.len(),
    ensures
        (r is Some) <==> (sp_u64s(data@.skip(pos as int)) is Some),
        r matches Some(p) ==> sp_u64s(data@.skip(pos as int)) == Some((p.0@, p.1 - pos as int))
            && pos < p.1 <= data@.len(),
{
    let (n, first) = match parse_u64(data, pos) {
        Some(p) => p,
        None => {
            return None;
        },
    };
    let mut cur = first;
    proof {
        assert(data@.skip(pos as int).skip(8) =~= data@.skip(cur as int));
    }
    let mut acc: Vec<u64> = Vec::new();
    let mut k: u64 = 0;
    while k < n
        invariant
            pos + 8 <= cur <= data@.len(),
            k <= n,
            acc@.len() == k,
            sp_u64s(data@.skip(pos as int)) == (match sp_items(
                data@.skip(cur as int),
                (n - k) as nat,
                u64_reader(),
            ) {
                None => None::<(Seq<u64>, int)>,
                Some((vs, c)) => Some((acc@ + vs, (cur - pos) + c)),
            }),
        decreases n - k,
    {
        let (v, np) = match parse_u64(data, cur) {
            Some(p) => p,
            None => {
                return None;
            },
        };
        proof {
            assert(data@.skip(cur as int).skip(8) =~= data@.skip(np as int));
        }
        let ghost acc0 = acc@;
        acc.push(v);
        proof {
            assert(forall|vs: Seq<u64>| acc0 + (seq![v] + vs) =~= acc@ + vs);
        }
        cur = np;
        k = k + 1;
    }
    proof {
        assert(acc@ + Seq::<u64>::empty() =~= acc@);
    }
    Some((acc, cur))
}

/// The wire form of a message.
pub open spec fn enc_message(m: MessageView) -> Seq<u8> {
    u64_be_bytes(m.index) + u64_be_bytes(m.from_chain_id) + u64_be_bytes(m.to_chain_id)
        + enc_bytes(m.sender) + enc_bytes(m.message) + enc_bytes(m.receiver) + enc_opt_bytes(
        m.signature,
    ) + u64_be_bytes(m.daemon_id)
}

/// Whether a message's byte fields fit their length prefixes.
pub open spec fn msg_ok(m: MessageView) -> bool {
    &&& bytes_ok(m.sender)
    &&& bytes_ok(m.message)
    &&& bytes_ok(m.receiver)
    &&& (m.signature matches Some(s) ==> bytes_ok(s))
}

/// Read a message.
#[verifier::opaque]
pub open spec fn sp_message(input: Seq<u8>) -> Option<(MessageView, int)> {
    match sp_u64(input) {
        None => None,
        Some((index, _)) => match sp_u64(input.skip(8)) {
            None => None,
            Some((from_chain_id, _)) => match sp_u64(input.skip(16)) {
                None => None,
                Some((to_chain_id, _)) => match sp_bytes(input.skip(24)) {
                    None => None,
                    Some((sender, c1)) => match sp_bytes(input.skip(24 + c1)) {
                        None => None,
                        Some((message, c2)) => match sp_bytes(input.skip(24 + c1 + c2)) {
                            None => None,
                            Some((receiver, c3)) => match sp_opt_bytes(
                                input.skip(24 + c1 + c2 + c3),
                            ) {
                                None => None,
                                Some((signature, c4)) => match sp_u64(
                                    input.skip(24 + c1 + c2 + c3 + c4),
                                ) {
                                    None => None,
                                    Some((daemon_id, _)) => Some(
                                        (
                                            MessageView {
                                                index,
                                                from_chain_id,
                                                to_chain_id,
                                                sender,
                                                message,
                                                receiver,
                                                signature,
                                                daemon_id,
                                            },
                                            32 + c1 + c2 + c3 + c4,
                                        ),
                                    ),
                                },
                            },
                        },
                    },
                },
            },
        },
    }
}

/// An encoded message reads back as itself.
#[verifier::rlimit(100)]
proof fn lemma_message_round_trip(m: MessageView, tail: Seq<u8>)
    requires
        msg_ok(m),
    ensures
        sp_message(enc_message(m) + tail) == Some((m, enc_message(m).len() as int)),
{
    reveal(sp_message);
    let whole = enc_message(m) + tail;
    let e1 = u64_be_bytes(m.index);
    let e2 = u64_be_bytes(m.from_chain_id);
    let e3 = u64_be_bytes(m.to_chain_id);
    let e4 = enc_bytes(m.sender);
    let e5 = enc_bytes(m.message);
    let e6 = enc_bytes(m.receiver);
    let e7 = enc_opt_bytes(m.signature);
    let e8 = u64_be_bytes(m.daemon_id);
    let c1 = e4.len() as int;
    let c2 = e5.len() as int;
    let c3 = e6.len() as int;
    let c4 = e7.len() as int;
    assert(whole =~= e1 + (e2 + (e3 + (e4 + (e5 + (e6 + (e7 + (e8 + tail))))))));
    lemma_u64_round_trip(m.index, e2 + (e3 + (e4 + (e5 + (e6 + (e7 + (e8 + tail)))))));
    assert(whole.skip(8) =~= e2 + (e3 + (e4 + (e5 + (e6 + (e7 + (e8 + tail)))))));
    lemma_u64_round_trip(m.from_chain_id, e3 + (e4 + (e5 + (e6 + (e7 + (e8 + tail))))));
    assert(whole.skip(16) =~= e3 + (e4 + (e5 + (e6 + (e7 + (e8 + tail))))));
    lemma_u64_round_trip(m.to_chain_id, e4 + (e5 + (e6 + (e7 + (e8 + tail)))));
    assert(whole.skip(24) =~= e4 + (e5 + (e6 + (e7 + (e8 + tail)))));
    lemma_bytes_round_trip(m.sender, e5 + (e6 + (e7 + (e8 + tail))));
    assert(whole.skip(24 + c1) =~= e5 + (e6 + (e7 + (e8 + tail))));
    lemma_bytes_round_trip(m.message, e6 + (e7 + (e8 + tail)));
    assert(whole.skip(24 + c1 + c2) =~= e6 + (e7 + (e8 + tail)));
    lemma_bytes_round_trip(m.receiver, e7 + (e8 + tail));
    assert(whole.skip(24 + c1 + c2 + c3) =~= e7 + (e8 + tail));
    lemma_opt_bytes_round_trip(m.signature, e8 + tail);
    assert(whole.skip(24 + c1 + c2 + c3 + c4) =~= e8 + tail);
    lemma_u64_round_trip(m.daemon_id, tail);
}

/// Append a message.
fn emit_message(out: &mut Vec<u8>, m: &Message)
    ensures
        final(out)@ == old(out)@ + enc_message(m@),
        msg_ok(m@),
{
    emit_u64(out, m.index);
    emit_u64(out, m.from_chain_id);
    emit_u64(out, m.to_chain_id);
    emit_bytes(out, &m.sender);
    emit_bytes(out, &m.message);
    emit_bytes(out, &m.receiver);
    emit_opt_bytes(out, &m.signature);
    emit_u64(out, m.daemon_id);
    proof {
        assert(out@ =~= old(out)@ + enc_message(m@));
    }
}

/// Read a message.
fn parse_message(data: &Vec<u8>, pos: usize) -> (r: Option<(Message, usize)>)
    requires
        pos <= data@.len(),
    ensures
        (r is Some) <==> (sp_message(data@.skip(pos as int)) is Some),
        r matches Some(p) ==> sp_message(data@.skip(pos as int)) == Some((p.0@, p.1 - pos as int))
            && pos < p.1 <= data@.len(),
{
    proof {
        reveal(sp_message);
    }
    let (index, p1) = match parse_u64(data, pos) {
        Some(p) => p,
        None => {
            return None;
        },
    };
    proof {
        assert(data@.skip(pos as int).skip(8) =~= data@.skip(p1 as int));
    }
    let (from_chain_id, p2) = match parse_u64(data, p1) {
        Some(p) => p,
        None => {
            return None;
        },
    };
    proof {
        assert(data@.skip(pos as int).skip(16) =~= data@.skip(p2 as int));
    }
    let (to_chain_id, p3) = match parse_u64(data, p2) {
        Some(p) => p,
        None => {
            return None;
        },
    };
    proof {
        assert(data@.skip(pos as int).skip(24) =~= data@.skip(p3 as int));
    }
    let (sender, p4) = match parse_bytes(data, p3) {
        Some(p) => p,
        None => {
            return None;
        },
    };
    proof {
        assert(data@.skip(pos as int).skip(24 + (p4 - p3)) =~= data@.skip(p4 as int));
    }
    let (message, p5) = match parse_bytes(data, p4) {
        Some(p) => p,
        None => {
            return None;
        },
    };
    proof {
        assert(data@.skip(pos as int).skip(24 + (p4 - p3) + (p5 - p4)) =~= data@.skip(p5 as int));
    }
    let (receiver, p6) = match parse_bytes(data, p5) {
        Some(p) => p,
        None => {
            return None;
        },
    };
    proof {
        assert(data@.skip(pos as int).skip(24 + (p4 - p3) + (p5 - p4) + (p6 - p5)) =~= data@.skip(
            p6 as int,
        ));
    }
    let (signature, p7) = match parse_opt_bytes(data, p6) {
        Some(p) => p,
        None => {
            return None;
        },
    };
    proof {
        assert(data@.skip(pos as int).skip(24 + (p4 - p3) + (p5 - p4) + (p6 - p5) + (p7 - p6))
            =~= data@.skip(p7 as int));
    }
    let (daemon_id, p8) = match parse_u64(data, p7) {
        Some(p) => p,
        None => {
            return None;
        },
    };
    Some(
        (
            Message {
                index,
                from_chain_id,
                to_chain_id,
                sender,
                message,
                receiver,
                signature,
                daemon_id,
            },
            p8,
        ),
    )
}

/// The reader for messages.
pub open spec fn msg_reader() -> spec_fn(Seq<u8>) -> Option<(MessageView, int)> {
    |inp: Seq<u8>| sp_message(inp)
}

/// The reader for metadata slots.
pub open spec fn meta_reader() -> spec_fn(Seq<u8>) -> Option<(Option<ChainMetadataView>, int)> {
    |inp: Seq<u8>| sp_meta_slot(inp)
}

/// The reader for EVM client slots.
pub open spec fn evm_reader() -> spec_fn(Seq<u8>) -> Option<(Option<EvmChainView>, int)> {
    |inp: Seq<u8>| sp_evm_slot(inp)
}

/// The wire form of one chain entry under its chain id.
pub open spec fn enc_entry(p: (u64, ChainEntryView)) -> Seq<u8> {
    u64_be_bytes(p.0) + enc_nat(p.1.tokens) + enc_u64s(p.1.nonces) + u64_be_bytes(p.1.tx_count)
        + u64_be_bytes(p.1.last_block)
}

/// Whether a chain entry fits its length prefixes.
pub open spec fn entry_ok(p: (u64, ChainEntryView)) -> bool {
    nat_ok(p.1.tokens) && p.1.nonces.len() <= u64::MAX
}

/// Read one chain entry under its chain id.
#[verifier::opaque]
pub open spec fn sp_entry(input: Seq<u8>) -> Option<((u64, ChainEntryView), int)> {
    match sp_u64(input) {
        None => None,
        Some((chain_id, _)) => match sp_nat(input.skip(8)) {
            None => None,
            Some((tokens, c1)) => match sp_u64s(input.skip(8 + c1)) {
                None => None,
                Some((nonces, c2)) => match sp_u64(input.skip(8 + c1 + c2)) {
                    None => None,
                    Some((tx_count, _)) => match sp_u64(input.skip(16 + c1 + c2)) {
                        None => None,
                        Some((last_block, _)) => Some(
                            (
                                (
                                    chain_id,
                                    ChainEntryView { tokens, nonces, tx_count, last_block },
                                ),
                                24 + c1 + c2,
                            ),
                        ),
                    },
                },
            },
        },
    }
}

/// The reader for chain entries.
pub open spec fn entry_reader() -> spec_fn(Seq<u8>) -> Option<((u64, ChainEntryView), int)> {
    |inp: Seq<u8>| sp_entry(inp)
}

/// An encoded chain entry reads back as itself.
#[verifier::rlimit(100)]
proof fn lemma_entry_round_trip(p: (u64, ChainEntryView), tail: Seq<u8>)
    requires
        entry_ok(p),
    ensures
        sp_entry(enc_entry(p) + tail) == Some((p, enc_entry(p).len() as int)),
{
    reveal(sp_entry);
    let whole = enc_entry(p) + tail;
    let e1 = u64_be_bytes(p.0);
    let e2 = enc_nat(p.1.tokens);
    let e3 = enc_u64s(p.1.nonces);
    let e4 = u64_be_bytes(p.1.tx_count);
    let e5 = u64_be_bytes(p.1.last_block);
    let c1 = e2.len() as int;
    let c2 = e3.len() as int;
    assert(whole =~= e1 + (e2 + (e3 + (e4 + (e5 + tail)))));
    lemma_u64_round_trip(p.0, e2 + (e3 + (e4 + (e5 + tail))));
    assert(whole.skip(8) =~= e2 + (e3 + (e4 + (e5 + tail))));
    lemma_nat_round_trip(p.1.tokens, e3 + (e4 + (e5 + tail)));
    assert(whole.skip(8 + c1) =~= e3 + (e4 + (e5 + tail)));
    lemma_u64s_round_trip(p.1.nonces, e4 + (e5 + tail));
    assert(whole.skip(8 + c1 + c2) =~= e4 + (e5 + tail));
    lemma_u64_round_trip(p.1.tx_count, e5 + tail);
    assert(whole.skip(16 + c1 + c2) =~= e5 + tail);
    lemma_u64_round_trip(p.1.last_block, tail);
}

/// Append one chain entry under its chain id.
fn emit_entry(out: &mut Vec<u8>, e: &(u64, ChainEntry))
    ensures
        final(out)@ == old(out)@ + enc_entry((e.0, e.1@)),
        entry_ok((e.0, e.1@)),
{
    emit_u64(out, e.0);
    emit_natural(out, &e.1.tokens);
    emit_u64s(out, &e.1.nonce);
    emit_u64(out, e.1.tx_count);
    emit_u64(out, e.1.last_block);
    proof {
        assert(out@ =~= old(out)@ + enc_entry((e.0, e.1@)));
    }
}

/// Read one chain entry under its chain id.
fn parse_entry(data: &Vec<u8>, pos: usize) -> (r: Option<((u64, ChainEntry), usize)>)
    requires
        pos <= data@.len(),
    ensures
        (r is Some) <==> (sp_entry(data@.skip(pos as int)) is Some),
        r matches Some(p) ==> (sp_entry(data@.skip(pos as int)) matches Some(sv) && sv.1 == p.1
            - pos as int && sv.0.0 == p.0.0 && sv.0.1 == p.0.1@) && pos < p.1 <= data@.len(),
{
    proof {
        reveal(sp_entry);
    }
    let (chain_id, p1) = match parse_u64(data, pos) {
        Some(p) => p,
        None => {
            return None;
        },
    };
    proof {
        assert(data@.skip(pos as int).skip(8) =~= data@.skip(p1 as int));
    }
    let (tokens, p2) = match parse_natural(data, p1) {
        Some(p) => p,
        None => {
            return None;
        },
    };
    proof {
        assert(data@.skip(pos as int).skip(8 + (p2 - p1)) =~= data@.skip(p2 as int));
    }
    let (nonce, p3) = match parse_u64s(data, p2) {
        Some(p) => p,
        None => {
            return None;
        },
    };
    proof {
        assert(data@.skip(pos as int).skip(8 + (p2 - p1) + (p3 - p2)) =~= data@.skip(p3 as int));
    }
    let (tx_count, p4) = match parse_u64(data, p3) {
        Some(p) => p,
        None => {
            return None;
        },
    };
    proof {
        assert(data@.skip(pos as int).skip(16 + (p2 - p1) + (p3 - p2)) =~= data@.skip(p4 as int));
    }
    let (last_block, p5) = match parse_u64(data, p4) {
        Some(p) => p,
        None => {
            return None;
        },
    };
    Some(((chain_id, ChainEntry { tokens, nonce, tx_count, last_block }), p5))
}

/// One balance as it goes on the wire: its owner, key, credit and
/// chain entries in stored order.
pub struct BalanceSnap {
    pub principal: Seq<u8>,
    pub public_key: Seq<char>,
    pub cycles: nat,
    pub entries: Seq<(u64, ChainEntryView)>,
}

/// The snapshot of one stored balance.
pub open spec fn balance_snap(p: (Principal, Balance)) -> BalanceSnap {
    BalanceSnap {
        principal: p.0@,
        public_key: p.1.public_key@,
        cycles: p.1.cycles@,
        entries: p.1.chains_data@.map_values(|e: (u64, ChainEntry)| (e.0, e.1@)),
    }
}

/// A well-formed run of chain entries: chain ids appear once and no
/// entry repeats a top-up nonce.
pub open spec fn entry_pairs_wf(pairs: Seq<(u64, ChainEntryView)>) -> bool {
    &&& (forall|i: int, j: int|
        0 <= i < j < pairs.len() ==> (#[trigger] pairs[i]).0 != (#[trigger] pairs[j]).0)
    &&& (forall|k: int|
        0 <= k < pairs.len() ==> crate::types::balances::nonces_distinct(
            (#[trigger] pairs[k]).1.nonces,
        ))
}

/// The entries of a wire balance, as the map they stand for.
pub open spec fn pairs_to_map(s: Seq<(u64, ChainEntryView)>) -> Map<u64, ChainEntryView>
    decreases s.len(),
{
    if s.len() == 0 {
        Map::empty()
    } else {
        pairs_to_map(s.drop_last()).insert(s.last().0, s.last().1)
    }
}

/// The balance a wire balance stands for.
pub open spec fn bal_view(b: BalanceSnap) -> (Seq<u8>, BalanceView) {
    (
        b.principal,
        BalanceView {
            public_key: b.public_key,
            cycles: b.cycles,
            chains_data: pairs_to_map(b.entries),
        },
    )
}

/// The wire form of one balance.
pub open spec fn enc_balance(b: BalanceSnap) -> Seq<u8> {
    enc_bytes(b.principal) + enc_string(b.public_key) + enc_nat(b.cycles) + u64_be_bytes(
        b.entries.len() as u64,
    ) + concat_all(b.entries.map_values(|e: (u64, ChainEntryView)| enc_entry(e)))
}

/// Whether a balance fits its length prefixes and is well formed, as
/// only well-formed ledgers go on the wire.
pub open spec fn bal_ok(b: BalanceSnap) -> bool {
    &&& bytes_ok(b.principal)
    &&& str_ok(b.public_key)
    &&& nat_ok(b.cycles)
    &&& b.entries.len() <= u64::MAX
    &&& (forall|k: int| 0 <= k < b.entries.len() ==> entry_ok(#[trigger] b.entries[k]))
    &&& entry_pairs_wf(b.entries)
}

/// Read one balance.
#[verifier::opaque]
pub open spec fn sp_balance(input: Seq<u8>) -> Option<((Seq<u8>, BalanceView), int)> {
    match sp_bytes(input) {
        None => None,
        Some((principal, c1)) => match sp_string(input.skip(c1)) {
            None => None,
            Some((public_key, c2)) => match sp_nat(input.skip(c1 + c2)) {
                None => None,
                Some((cycles, c3)) => match sp_counted(input.skip(c1 + c2 + c3), entry_reader()) {
                    None => None,
                    Some((pairs, c4)) => {
                        if entry_pairs_wf(pairs) {
                            Some(
                                (
                                    (
                                        principal,
                                        BalanceView {
                                            public_key,
                                            cycles,
                                            chains_data: pairs_to_map(pairs),
                                        },
                                    ),
                                    c1 + c2 + c3 + c4,
                                ),
                            )
                        } else {
                            None
                        }
                    },
                },
            },
        },
    }
}

/// The reader for balances.
pub open spec fn bal_reader() -> spec_fn(Seq<u8>) -> Option<((Seq<u8>, BalanceView), int)> {
    |inp: Seq<u8>| sp_balance(inp)
}

/// An encoded balance reads back as itself.
#[verifier::rlimit(100)]
#[verifier::spinoff_prover]
proof fn lemma_balance_round_trip(b: BalanceSnap, tail: Seq<u8>)
    requires
        bal_ok(b),
    ensures
        sp_balance(enc_balance(b) + tail) == Some((bal_view(b), enc_balance(b).len() as int)),
{
    reveal(sp_balance);
    let whole = enc_balance(b) + tail;
    let e1 = enc_bytes(b.principal);
    let e2 = enc_string(b.public_key);
    let e3 = enc_nat(b.cycles);
    let encs = b.entries.map_values(|e: (u64, ChainEntryView)| enc_entry(e));
    let e4 = u64_be_bytes(b.entries.len() as u64) + concat_all(encs);
    let c1 = e1.len() as int;
    let c2 = e2.len() as int;
    let c3 = e3.len() as int;
    assert(whole =~= e1 + (e2 + (e3 + (e4 + tail))));
    lemma_bytes_round_trip(b.principal, e2 + (e3 + (e4 + tail)));
    assert(whole.skip(c1) =~= e2 + (e3 + (e4 + tail)));
    lemma_string_round_trip(b.public_key, e3 + (e4 + tail));
    assert(whole.skip(c1 + c2) =~= e3 + (e4 + tail));
    lemma_nat_round_trip(b.cycles, e4 + tail);
    assert(whole.skip(c1 + c2 + c3) =~= e4 + tail);
    assert forall|k: int, t: Seq<u8>|
        0 <= k < encs.len() implies #[trigger] entry_reader()(encs[k] + t) == Some(
        (b.entries[k], encs[k].len() as int),
    ) by {
        lemma_entry_round_trip(b.entries[k], t);
    }
    lemma_counted_round_trip(encs, b.entries, entry_reader(), tail);
    assert(e4 + tail =~= u64_be_bytes(encs.len() as u64) + concat_all(encs) + tail);
}

/// Append one balance.
fn emit_balance(out: &mut Vec<u8>, pair: &(Principal, Balance))
    requires
        pair.1.wf(),
    ensures
        final(out)@ == old(out)@ + enc_balance(balance_snap(*pair)),
        bal_ok(balance_snap(*pair)),
{
    let ghost base = out@;
    let ghost snap = balance_snap(*pair);
    proof {
        assert forall|i: int, j: int|
            0 <= i < j < snap.entries.len() implies (#[trigger] snap.entries[i]).0 != (
        #[trigger] snap.entries[j]).0 by {
            assert(pair.1.chains_data@[i].0@ != pair.1.chains_data@[j].0@);
        }
        assert forall|k: int|
            0 <= k < snap.entries.len() implies crate::types::balances::nonces_distinct(
            (#[trigger] snap.entries[k]).1.nonces,
        ) by {
            assert(crate::types::balances::nonces_distinct(pair.1.chains_data@[k].1@.nonces));
        }
    }
    emit_bytes(out, pair.0.as_bytes());
    emit_string(out, &pair.1.public_key);
    emit_natural(out, &pair.1.cycles);
    let n: usize = pair.1.chains_data.len();
    emit_u64(out, n as u64);
    let ghost mid = out@;
    let mut i: usize = 0;
    proof {
        let f = |e: (u64, ChainEntryView)| enc_entry(e);
        assert(concat_all(snap.entries.take(0).map_values(f)) =~= Seq::<u8>::empty());
        assert(out@ =~= mid + concat_all(snap.entries.take(0).map_values(f)));
    }
    while i < n
        invariant
            i <= n,
            n == pair.1.chains_data@.len(),
            snap == balance_snap(*pair),
            mid == base + enc_bytes(snap.principal) + enc_string(snap.public_key) + enc_nat(
                snap.cycles,
            ) + u64_be_bytes(snap.entries.len() as u64),
            out@ =~= mid + concat_all(
                snap.entries.take(i as int).map_values(|e: (u64, ChainEntryView)| enc_entry(e)),
            ),
            forall|k: int| 0 <= k < i ==> entry_ok(#[trigger] snap.entries[k]),
        decreases n - i,
    {
        emit_entry(out, &pair.1.chains_data[i]);
        proof {
            let f = |e: (u64, ChainEntryView)| enc_entry(e);
            assert(snap.entries[i as int] == (
                pair.1.chains_data@[i as int].0,
                pair.1.chains_data@[i as int].1@,
            ));
            assert(snap.entries.take(i + 1).map_values(f) =~= snap.entries.take(
                i as int,
            ).map_values(f).push(enc_entry(snap.entries[i as int])));
            lemma_concat_all_push(
                snap.entries.take(i as int).map_values(f),
                enc_entry(snap.entries[i as int]),
            );
            assert(out@ =~= mid + concat_all(snap.entries.take(i + 1).map_values(f)));
        }
        i = i + 1;
    }
    proof {
        assert(snap.entries.take(n as int) =~= snap.entries);
        assert(out@ =~= base + enc_balance(snap));
        assert(out@.take(base.len() as int) =~= base);
    }
}

/// Read one balance.
#[verifier::loop_isolation(false)]
#[verifier::rlimit(100)]
fn parse_balance(data: &Vec<u8>, pos: usize) -> (r: Option<((Principal, Balance), usize)>)
    requires
        pos <= data@.len(),
    ensures
        (r is Some) <==> (sp_balance(data@.skip(pos as int)) is Some),
        r matches Some(p) ==> (sp_balance(data@.skip(pos as int)) matches Some(sv) && sv.1 == p.1
            - pos as int && sv.0.0 == p.0.0@ && sv.0.1 == p.0.1@) && p.0.1.wf() && pos < p.1
            <= data@.len(),
{
    proof {
        reveal(sp_balance);
    }
    let (principal_bytes, p1) = match parse_bytes(data, pos) {
        Some(p) => p,
        None => {
            return None;
        },
    };
    proof {
        assert(data@.skip(pos as int).skip(p1 - pos) =~= data@.skip(p1 as int));
    }
    let (public_key, p2) = match parse_string(data, p1) {
        Some(p) => p,
        None => {
            return None;
        },
    };
    proof {
        assert(data@.skip(pos as int).skip((p1 - pos) + (p2 - p1)) =~= data@.skip(p2 as int));
    }
    let (cycles, p3) = match parse_natural(data, p2) {
        Some(p) => p,
        None => {
            return None;
        },
    };
    proof {
        assert(data@.skip(pos as int).skip((p1 - pos) + (p2 - p1) + (p3 - p2)) =~= data@.skip(
            p3 as int,
        ));
    }
    let (n, first) = match parse_u64(data, p3) {
        Some(p) => p,
        None => {
            return None;
        },
    };
    let mut cur = first;
    proof {
        assert(data@.skip(p3 as int).skip(8) =~= data@.skip(cur as int));
    }
    let mut entries: Vec<(u64, ChainEntry)> = Vec::new();
    let mut k: u64 = 0;
    while k < n
        invariant
            p3 + 8 <= cur <= data@.len(),
            k <= n,
            entries@.len() == k,
            sp_counted(data@.skip(p3 as int), entry_reader()) == (match sp_items(
                data@.skip(cur as int),
                (n - k) as nat,
                entry_reader(),
            ) {
                None => None::<(Seq<(u64, ChainEntryView)>, int)>,
                Some((vs, c)) => Some(
                    (
                        entries@.map_values(|e: (u64, ChainEntry)| (e.0, e.1@)) + vs,
                        ((cur - p3) + c) as int,
                    ),
                ),
            }),
        decreases n - k,
    {
        let (e, np) = match parse_entry(data, cur) {
            Some(p) => p,
            None => {
                return None;
            },
        };
        proof {
            assert(data@.skip(cur as int).skip(np - cur) =~= data@.skip(np as int));
        }
        let ghost acc0 = entries@.map_values(|e2: (u64, ChainEntry)| (e2.0, e2.1@));
        entries.push(e);
        proof {
            let accn = entries@.map_values(|e2: (u64, ChainEntry)| (e2.0, e2.1@));
            assert(accn =~= acc0.push((entries@.last().0, entries@.last().1@)));
            assert(forall|vs: Seq<(u64, ChainEntryView)>| acc0 + (seq![accn.last()] + vs) =~= accn
                + vs);
        }
        cur = np;
        k = k + 1;
    }
    proof {
        assert(entries@.map_values(|e: (u64, ChainEntry)| (e.0, e.1@)) + Seq::<
            (u64, ChainEntryView),
        >::empty() =~= entries@.map_values(|e: (u64, ChainEntry)| (e.0, e.1@)));
        lemma_pairs_map_is_assoc(entries@);
    }
    if !entry_list_wf(&entries) {
        return None;
    }
    proof {
        let pairs = entries@.map_values(|e: (u64, ChainEntry)| (e.0, e.1@));
        assert forall|i: int, j: int|
            0 <= i < j < entries@.len() implies (#[trigger] entries@[i]).0@ != (
        #[trigger] entries@[j]).0@ by {
            assert(pairs[i].0 != pairs[j].0);
        }
        assert forall|k: int|
            0 <= k < entries@.len() implies crate::types::balances::nonces_distinct(
            (#[trigger] entries@[k]).1@.nonces,
        ) by {
            assert(crate::types::balances::nonces_distinct(pairs[k].1.nonces));
        }
    }
    let balance = Balance { public_key, cycles, chains_data: entries };
    Some(((Principal::from_bytes(principal_bytes), balance), cur))
}

/// A stored entry list and its wire reading stand for the same map.
proof fn lemma_pairs_map_is_assoc(l: Seq<(u64, ChainEntry)>)
    ensures
        pairs_to_map(l.map_values(|e: (u64, ChainEntry)| (e.0, e.1@)))
            == crate::types::assoc::assoc_map(l),
    decreases l.len(),
{
    let f = |e: (u64, ChainEntry)| (e.0, e.1@);
    if l.len() == 0 {
        assert(l.map_values(f).len() == 0);
        assert(pairs_to_map(l.map_values(f)) =~= crate::types::assoc::assoc_map(l));
    } else {
        lemma_pairs_map_is_assoc(l.drop_last());
        assert(l.map_values(f).drop_last() =~= l.drop_last().map_values(f));
        assert(l.map_values(f).last() == (l.last().0, l.last().1@));
        assert(pairs_to_map(l.map_values(f)) =~= crate::types::assoc::assoc_map(l));
    }
}

/// The wire form of a daemon: its timer handle stays off the wire.
pub open spec fn enc_daemon(d: DaemonView) -> Seq<u8> {
    u64_be_bytes(d.id) + enc_bytes(d.creator) + u64_be_bytes(d.listen_chain_id) + enc_string(
        d.ccmp_contract,
    ) + u64_be_bytes(d.interval_secs) + seq![
        (if d.is_active {
            1u8
        } else {
            0u8
        }),
    ]
}

/// Whether a daemon fits its length prefixes.
pub open spec fn daemon_ok(d: DaemonView) -> bool {
    bytes_ok(d.creator) && str_ok(d.ccmp_contract)
}

/// A daemon's view with its timer handle forgotten.
pub open spec fn scrub_daemon(d: DaemonView) -> DaemonView {
    DaemonView { timer_id: None, ..d }
}

/// Read a daemon.
#[verifier::opaque]
pub open spec fn sp_daemon(input: Seq<u8>) -> Option<(DaemonView, int)> {
    match sp_u64(input) {
        None => None,
        Some((id, _)) => match sp_bytes(input.skip(8)) {
            None => None,
            Some((creator, c1)) => match sp_u64(input.skip(8 + c1)) {
                None => None,
                Some((listen_chain_id, _)) => match sp_string(input.skip(16 + c1)) {
                    None => None,
                    Some((ccmp_contract, c2)) => match sp_u64(input.skip(16 + c1 + c2)) {
                        None => None,
                        Some((interval_secs, _)) => match sp_byte(input.skip(24 + c1 + c2)) {
                            None => None,
                            Some((a, _)) => {
                                if a <= 1 {
                                    Some(
                                        (
                                            DaemonView {
                                                id,
                                                creator,
                                                listen_chain_id,
                                                ccmp_contract,
                                                interval_secs,
                                                is_active: a == 1,
                                                timer_id: None,
                                            },
                                            25 + c1 + c2,
                                        ),
                                    )
                                } else {
                                    None
                                }
                            },
                        },
                    },
                },
            },
        },
    }
}

/// The reader for daemons.
pub open spec fn daemon_reader() -> spec_fn(Seq<u8>) -> Option<(DaemonView, int)> {
    |inp: Seq<u8>| sp_daemon(inp)
}

/// An encoded daemon reads back with its timer gone.
#[verifier::rlimit(100)]
proof fn lemma_daemon_round_trip(d: DaemonView, tail: Seq<u8>)
    requires
        daemon_ok(d),
    ensures
        sp_daemon(enc_daemon(d) + tail) == Some((scrub_daemon(d), enc_daemon(d).len() as int)),
{
    reveal(sp_daemon);
    let whole = enc_daemon(d) + tail;
    let e1 = u64_be_bytes(d.id);
    let e2 = enc_bytes(d.creator);
    let e3 = u64_be_bytes(d.listen_chain_id);
    let e4 = enc_string(d.ccmp_contract);
    let e5 = u64_be_bytes(d.interval_secs);
    let ab: u8 = if d.is_active {
        1u8
    } else {
        0u8
    };
    let e6 = seq![ab];
    let c1 = e2.len() as int;
    let c2 = e4.len() as int;
    assert(whole =~= e1 + (e2 + (e3 + (e4 + (e5 + (e6 + tail))))));
    lemma_u64_round_trip(d.id, e2 + (e3 + (e4 + (e5 + (e6 + tail)))));
    assert(whole.skip(8) =~= e2 + (e3 + (e4 + (e5 + (e6 + tail)))));
    lemma_bytes_round_trip(d.creator, e3 + (e4 + (e5 + (e6 + tail))));
    assert(whole.skip(8 + c1) =~= e3 + (e4 + (e5 + (e6 + tail))));
    lemma_u64_round_trip(d.listen_chain_id, e4 + (e5 + (e6 + tail)));
    assert(whole.skip(16 + c1) =~= e4 + (e5 + (e6 + tail)));
    lemma_string_round_trip(d.ccmp_contract, e5 + (e6 + tail));
    assert(whole.skip(16 + c1 + c2) =~= e5 + (e6 + tail));
    lemma_u64_round_trip(d.interval_secs, e6 + tail);
    assert(whole.skip(24 + c1 + c2) =~= e6 + tail);
    assert(whole.skip(24 + c1 + c2)[0] == ab);
}

/// Append a daemon.
fn emit_daemon(out: &mut Vec<u8>, d: &Daemon)
    ensures
        final(out)@ == old(out)@ + enc_daemon(d@),
        daemon_ok(d@),
{
    emit_u64(out, d.id);
    emit_bytes(out, d.creator.as_bytes());
    emit_u64(out, d.listen_chain_id);
    emit_string(out, &d.ccmp_contract);
    emit_u64(out, d.interval_secs);
    emit_byte(
        out,
        if d.is_active {
            1
        } else {
            0
        },
    );
    proof {
        assert(out@ =~= old(out)@ + enc_daemon(d@));
    }
}

/// Read a daemon.
fn parse_daemon(data: &Vec<u8>, pos: usize) -> (r: Option<(Daemon, usize)>)
    requires
        pos <= data@.len(),
    ensures
        (r is Some) <==> (sp_daemon(data@.skip(pos as int)) is Some),
        r matches Some(p) ==> sp_daemon(data@.skip(pos as int)) == Some((p.0@, p.1 - pos as int))
            && pos < p.1 <= data@.len(),
{
    proof {
        reveal(sp_daemon);
    }
    let (id, p1) = match parse_u64(data, pos) {
        Some(p) => p,
        None => {
            return None;
        },
    };
    proof {
        assert(data@.skip(pos as int).skip(8) =~= data@.skip(p1 as int));
    }
    let (creator_bytes, p2) = match parse_bytes(data, p1) {
        Some(p) => p,
        None => {
            return None;
        },
    };
    proof {
        assert(data@.skip(pos as int).skip(8 + (p2 - p1)) =~= data@.skip(p2 as int));
    }
    let (listen_chain_id, p3) = match parse_u64(data, p2) {
        Some(p) => p,
        None => {
            return None;
        },
    };
    proof {
        assert(data@.skip(pos as int).skip(16 + (p2 - p1)) =~= data@.skip(p3 as int));
    }
    let (ccmp_contract, p4) = match parse_string(data, p3) {
        Some(p) => p,
        None => {
            return None;
        },
    };
    proof {
        assert(data@.skip(pos as int).skip(16 + (p2 - p1) + (p4 - p3)) =~= data@.skip(p4 as int));
    }
    let (interval_secs, p5) = match parse_u64(data, p4) {
        Some(p) => p,
        None => {
            return None;
        },
    };
    proof {
        assert(data@.skip(pos as int).skip(24 + (p2 - p1) + (p4 - p3)) =~= data@.skip(p5 as int));
    }
    let (a, p6) = match parse_byte(data, p5) {
        Some(p) => p,
        None => {
            return None;
        },
    };
    if a > 1 {
        return None;
    }
    Some(
        (
            Daemon {
                id,
                creator: Principal::from_bytes(creator_bytes),
                listen_chain_id,
                ccmp_contract,
                interval_secs,
                is_active: a == 1,
                timer_id: None,
            },
            p6,
        ),
    )
}

/// The wire form of a tracked transaction.
pub open spec fn enc_pending(p: PendingTransactionView) -> Seq<u8> {
    enc_string(p.tx_hash) + enc_message(p.message) + enc_nat(p.gas_price)
}

/// Whether a tracked transaction fits its length prefixes.
pub open spec fn pending_ok(p: PendingTransactionView) -> bool {
    str_ok(p.tx_hash) && msg_ok(p.message) && nat_ok(p.gas_price)
}

/// Read a tracked transaction.
#[verifier::opaque]
pub open spec fn sp_pending(input: Seq<u8>) -> Option<(PendingTransactionView, int)> {
    match sp_string(input) {
        None => None,
        Some((tx_hash, c1)) => match sp_message(input.skip(c1)) {
            None => None,
            Some((message, c2)) => match sp_nat(input.skip(c1 + c2)) {
                None => None,
                Some((gas_price, c3)) => Some(
                    (PendingTransactionView { tx_hash, message, gas_price }, c1 + c2 + c3),
                ),
            },
        },
    }
}

/// The reader for tracked transactions.
pub open spec fn pending_reader() -> spec_fn(Seq<u8>) -> Option<(PendingTransactionView, int)> {
    |inp: Seq<u8>| sp_pending(inp)
}

/// An encoded tracked transaction reads back as itself.
#[verifier::rlimit(100)]
proof fn lemma_pending_round_trip(p: PendingTransactionView, tail: Seq<u8>)
    requires
        pending_ok(p),
    ensures
        sp_pending(enc_pending(p) + tail) == Some((p, enc_pending(p).len() as int)),
{
    reveal(sp_pending);
    let whole = enc_pending(p) + tail;
    let e1 = enc_string(p.tx_hash);
    let e2 = enc_message(p.message);
    let e3 = enc_nat(p.gas_price);
    let c1 = e1.len() as int;
    let c2 = e2.len() as int;
    assert(whole =~= e1 + (e2 + (e3 + tail)));
    lemma_string_round_trip(p.tx_hash, e2 + (e3 + tail));
    assert(whole.skip(c1) =~= e2 + (e3 + tail));
    lemma_message_round_trip(p.message, e3 + tail);
    assert(whole.skip(c1 + c2) =~= e3 + tail);
    lemma_nat_round_trip(p.gas_price, tail);
}

/// Append a tracked transaction.
fn emit_pending(out: &mut Vec<u8>, p: &PendingTransaction)
    ensures
        final(out)@ == old(out)@ + enc_pending(p@),
        pending_ok(p@),
{
    emit_string(out, &p.tx_hash);
    emit_message(out, &p.message);
    emit_natural(out, &p.gas_price);
    proof {
        assert(out@ =~= old(out)@ + enc_pending(p@));
    }
}

/// Read a tracked transaction.
fn parse_pending(data: &Vec<u8>, pos: usize) -> (r: Option<(PendingTransaction, usize)>)
    requires
        pos <= data@.len(),
    ensures
        (r is Some) <==> (sp_pending(data@.skip(pos as int)) is Some),
        r matches Some(p) ==> sp_pending(data@.skip(pos as int)) == Some((p.0@, p.1 - pos as int))
            && pos < p.1 <= data@.len(),
{
    proof {
        reveal(sp_pending);
    }
    let (tx_hash, p1) = match parse_string(data, pos) {
        Some(p) => p,
        None => {
            return None;
        },
    };
    proof {
        assert(data@.skip(pos as int).skip(p1 - pos) =~= data@.skip(p1 as int));
    }
    let (message, p2) = match parse_message(data, p1) {
        Some(p) => p,
        None => {
            return None;
        },
    };
    proof {
        assert(data@.skip(pos as int).skip((p1 - pos) + (p2 - p1)) =~= data@.skip(p2 as int));
    }
    let (gas_price, p3) = match parse_natural(data, p2) {
        Some(p) => p,
        None => {
            return None;
        },
    };
    Some((PendingTransaction { tx_hash, message, gas_price }, p3))
}


/// The wire form of the chain metadata list.
pub open spec fn enc_meta_slots(vs: Seq<Option<ChainMetadataView>>) -> Seq<u8> {
    u64_be_bytes(vs.len() as u64) + concat_all(vs.map_values(|v: Option<ChainMetadataView>| enc_meta_slot(v)))
}

/// Whether a chain metadata list fits its length prefixes.
pub open spec fn meta_slots_ok(vs: Seq<Option<ChainMetadataView>>) -> bool {
    vs.len() <= u64::MAX && (forall|k: int| 0 <= k < vs.len() ==> (#[trigger] vs[k] matches Some(m) ==> str_ok(m.name)))
}

/// An encoded chain metadata list reads back as itself.
proof fn lemma_meta_slots_round_trip(vs: Seq<Option<ChainMetadataView>>, tail: Seq<u8>)
    requires
        meta_slots_ok(vs),
    ensures
        sp_counted(enc_meta_slots(vs) + tail, meta_reader()) == Some(
            ({
                let r = vs.map_values(|v: Option<ChainMetadataView>| sp_meta_slot(enc_meta_slot(v) + tail)->Some_0.0);
                r
            }, enc_meta_slots(vs).len() as int),
        ),
{
    let encs = vs.map_values(|v: Option<ChainMetadataView>| enc_meta_slot(v));
    let outs = vs.map_values(|v: Option<ChainMetadataView>| sp_meta_slot(enc_meta_slot(v) + tail)->Some_0.0);
    assert forall|k: int, t: Seq<u8>|
        0 <= k < encs.len() implies #[trigger] meta_reader()(encs[k] + t) == Some(
        (outs[k], encs[k].len() as int),
    ) by {
        lemma_meta_slot_round_trip(vs[k], t);
        lemma_meta_slot_round_trip(vs[k], tail);
    }
    lemma_counted_round_trip(encs, outs, meta_reader(), tail);
    assert(enc_meta_slots(vs) + tail =~= u64_be_bytes(encs.len() as u64) + concat_all(encs) + tail);
}

/// Append the chain metadata list.
fn emit_meta_slots(out: &mut Vec<u8>, items: &Vec<Option<ChainMetadata>>)
    ensures
        final(out)@ == old(out)@ + enc_meta_slots(crate::types::slot_views(items@)),
        meta_slots_ok(crate::types::slot_views(items@)),
{
    let ghost base = out@;
    let ghost vs: Seq<Option<ChainMetadataView>> = crate::types::slot_views(items@);
    let n: usize = items.len();
    emit_u64(out, n as u64);
    let ghost mid = out@;
    let mut i: usize = 0;
    proof {
        let f = |v: Option<ChainMetadataView>| enc_meta_slot(v);
        assert(concat_all(vs.take(0).map_values(f)) =~= Seq::<u8>::empty());
        assert(out@ =~= mid + concat_all(vs.take(0).map_values(f)));
    }
    while i < n
        invariant
            i <= n,
            n == items@.len(),
            vs == crate::types::slot_views(items@),
            mid == base + u64_be_bytes(vs.len() as u64),
            out@ =~= mid + concat_all(vs.take(i as int).map_values(|v: Option<ChainMetadataView>| enc_meta_slot(v))),
            forall|k: int| 0 <= k < i ==> (#[trigger] vs[k] matches Some(m) ==> str_ok(m.name)),
        decreases n - i,
    {
        emit_meta_slot(out, &items[i]);
        proof {
            let f = |v: Option<ChainMetadataView>| enc_meta_slot(v);
            assert(vs[i as int] == (match items@[i as int] { Some(m) => Some(m@), None => None }));
            assert(vs.take(i + 1).map_values(f) =~= vs.take(i as int).map_values(f).push(
                enc_meta_slot(vs[i as int]),
            ));
            lemma_concat_all_push(vs.take(i as int).map_values(f), enc_meta_slot(vs[i as int]));
            assert(out@ =~= mid + concat_all(vs.take(i + 1).map_values(f)));
        }
        i = i + 1;
    }
    proof {
        assert(vs.take(n as int) =~= vs);
        assert(out@ =~= base + enc_meta_slots(vs));
        assert(out@.take(base.len() as int) =~= base);
    }
}

/// The wire form of the EVM client list.
pub open spec fn enc_evm_slots(vs: Seq<Option<EvmChainView>>) -> Seq<u8> {
    u64_be_bytes(vs.len() as u64) + concat_all(vs.map_values(|v: Option<EvmChainView>| enc_evm_slot(v)))
}

/// Whether a EVM client list fits its length prefixes.
pub open spec fn evm_slots_ok(vs: Seq<Option<EvmChainView>>) -> bool {
    vs.len() <= u64::MAX && (forall|k: int| 0 <= k < vs.len() ==> (#[trigger] vs[k] matches Some(c) ==> str_ok(c.name) && str_ok(c.rpc)))
}

/// An encoded EVM client list reads back as itself.
proof fn lemma_evm_slots_round_trip(vs: Seq<Option<EvmChainView>>, tail: Seq<u8>)
    requires
        evm_slots_ok(vs),
    ensures
        sp_counted(enc_evm_slots(vs) + tail, evm_reader()) == Some(
            ({
                let r = vs.map_values(|v: Option<EvmChainView>| sp_evm_slot(enc_evm_slot(v) + tail)->Some_0.0);
                r
            }, enc_evm_slots(vs).len() as int),
        ),
{
    let encs = vs.map_values(|v: Option<EvmChainView>| enc_evm_slot(v));
    let outs = vs.map_values(|v: Option<EvmChainView>| sp_evm_slot(enc_evm_slot(v) + tail)->Some_0.0);
    assert forall|k: int, t: Seq<u8>|
        0 <= k < encs.len() implies #[trigger] evm_reader()(encs[k] + t) == Some(
        (outs[k], encs[k].len() as int),
    ) by {
        lemma_evm_slot_round_trip(vs[k], t);
        lemma_evm_slot_round_trip(vs[k], tail);
    }
    lemma_counted_round_trip(encs, outs, evm_reader(), tail);
    assert(enc_evm_slots(vs) + tail =~= u64_be_bytes(encs.len() as u64) + concat_all(encs) + tail);
}

/// Append the EVM client list.
fn emit_evm_slots(out: &mut Vec<u8>, items: &Vec<Option<EvmChain>>)
    ensures
        final(out)@ == old(out)@ + enc_evm_slots(crate::types::slot_views(items@)),
        evm_slots_ok(crate::types::slot_views(items@)),
{
    let ghost base = out@;
    let ghost vs: Seq<Option<EvmChainView>> = crate::types::slot_views(items@);
    let n: usize = items.len();
    emit_u64(out, n as u64);
    let ghost mid = out@;
    let mut i: usize = 0;
    proof {
        let f = |v: Option<EvmChainView>| enc_evm_slot(v);
        assert(concat_all(vs.take(0).map_values(f)) =~= Seq::<u8>::empty());
        assert(out@ =~= mid + concat_all(vs.take(0).map_values(f)));
    }
    while i < n
        invariant
            i <= n,
            n == items@.len(),
            vs == crate::types::slot_views(items@),
            mid == base + u64_be_bytes(vs.len() as u64),
            out@ =~= mid + concat_all(vs.take(i as int).map_values(|v: Option<EvmChainView>| enc_evm_slot(v))),
            forall|k: int| 0 <= k < i ==> (#[trigger] vs[k] matches Some(c) ==> str_ok(c.name) && str_ok(c.rpc)),
        decreases n - i,
    {
        emit_evm_slot(out, &items[i]);
        proof {
            let f = |v: Option<EvmChainView>| enc_evm_slot(v);
            assert(vs[i as int] == (match items@[i as int] { Some(c) => Some(c@), None => None }));
            assert(vs.take(i + 1).map_values(f) =~= vs.take(i as int).map_values(f).push(
                enc_evm_slot(vs[i as int]),
            ));
            lemma_concat_all_push(vs.take(i as int).map_values(f), enc_evm_slot(vs[i as int]));
            assert(out@ =~= mid + concat_all(vs.take(i + 1).map_values(f)));
        }
        i = i + 1;
    }
    proof {
        assert(vs.take(n as int) =~= vs);
        assert(out@ =~= base + enc_evm_slots(vs));
        assert(out@.take(base.len() as int) =~= base);
    }
}

/// The wire form of the message list.
pub open spec fn enc_messages(vs: Seq<MessageView>) -> Seq<u8> {
    u64_be_bytes(vs.len() as u64) + concat_all(vs.map_values(|v: MessageView| enc_message(v)))
}

/// Whether a message list fits its length prefixes.
pub open spec fn messages_ok(vs: Seq<MessageView>) -> bool {
    vs.len() <= u64::MAX && (forall|k: int| 0 <= k < vs.len() ==> msg_ok(#[trigger] vs[k]))
}

/// An encoded message list reads back as itself.
proof fn lemma_messages_round_trip(vs: Seq<MessageView>, tail: Seq<u8>)
    requires
        messages_ok(vs),
    ensures
        sp_counted(enc_messages(vs) + tail, msg_reader()) == Some(
            ({
                let r = vs.map_values(|v: MessageView| sp_message(enc_message(v) + tail)->Some_0.0);
                r
            }, enc_messages(vs).len() as int),
        ),
{
    let encs = vs.map_values(|v: MessageView| enc_message(v));
    let outs = vs.map_values(|v: MessageView| sp_message(enc_message(v) + tail)->Some_0.0);
    assert forall|k: int, t: Seq<u8>|
        0 <= k < encs.len() implies #[trigger] msg_reader()(encs[k] + t) == Some(
        (outs[k], encs[k].len() as int),
    ) by {
        lemma_message_round_trip(vs[k], t);
        lemma_message_round_trip(vs[k], tail);
    }
    lemma_counted_round_trip(encs, outs, msg_reader(), tail);
    assert(enc_messages(vs) + tail =~= u64_be_bytes(encs.len() as u64) + concat_all(encs) + tail);
}

/// Append the message list.
fn emit_messages(out: &mut Vec<u8>, items: &Vec<Message>)
    ensures
        final(out)@ == old(out)@ + enc_messages(items@.map_values(|m: Message| m@)),
        messages_ok(items@.map_values(|m: Message| m@)),
{
    let ghost base = out@;
    let ghost vs: Seq<MessageView> = items@.map_values(|m: Message| m@);
    let n: usize = items.len();
    emit_u64(out, n as u64);
    let ghost mid = out@;
    let mut i: usize = 0;
    proof {
        let f = |v: MessageView| enc_message(v);
        assert(concat_all(vs.take(0).map_values(f)) =~= Seq::<u8>::empty());
        assert(out@ =~= mid + concat_all(vs.take(0).map_values(f)));
    }
    while i < n
        invariant
            i <= n,
            n == items@.len(),
            vs == items@.map_values(|m: Message| m@),
            mid == base + u64_be_bytes(vs.len() as u64),
            out@ =~= mid + concat_all(vs.take(i as int).map_values(|v: MessageView| enc_message(v))),
            forall|k: int| 0 <= k < i ==> msg_ok(#[trigger] vs[k]),
        decreases n - i,
    {
        emit_message(out, &items[i]);
        proof {
            let f = |v: MessageView| enc_message(v);
            assert(vs[i as int] == items@[i as int]@);
            assert(vs.take(i + 1).map_values(f) =~= vs.take(i as int).map_values(f).push(
                enc_message(vs[i as int]),
            ));
            lemma_concat_all_push(vs.take(i as int).map_values(f), enc_message(vs[i as int]));
            assert(out@ =~= mid + concat_all(vs.take(i + 1).map_values(f)));
        }
        i = i + 1;
    }
    proof {
        assert(vs.take(n as int) =~= vs);
        assert(out@ =~= base + enc_messages(vs));
        assert(out@.take(base.len() as int) =~= base);
    }
}

/// The wire form of the balance list.
pub open spec fn enc_balances_list(vs: Seq<BalanceSnap>) -> Seq<u8> {
    u64_be_bytes(vs.len() as u64) + concat_all(vs.map_values(|v: BalanceSnap| enc_balance(v)))
}

/// Whether a balance list fits its length prefixes.
pub open spec fn balances_list_ok(vs: Seq<BalanceSnap>) -> bool {
    vs.len() <= u64::MAX && (forall|k: int| 0 <= k < vs.len() ==> bal_ok(#[trigger] vs[k]))
}

/// An encoded balance list reads back as itself.
proof fn lemma_balances_list_round_trip(vs: Seq<BalanceSnap>, tail: Seq<u8>)
    requires
        balances_list_ok(vs),
    ensures
        sp_counted(enc_balances_list(vs) + tail, bal_reader()) == Some(
            ({
                let r = vs.map_values(|v: BalanceSnap| sp_balance(enc_balance(v) + tail)->Some_0.0);
                r
            }, enc_balances_list(vs).len() as int),
        ),
{
    let encs = vs.map_values(|v: BalanceSnap| enc_balance(v));
    let outs = vs.map_values(|v: BalanceSnap| sp_balance(enc_balance(v) + tail)->Some_0.0);
    assert forall|k: int, t: Seq<u8>|
        0 <= k < encs.len() implies #[trigger] bal_reader()(encs[k] + t) == Some(
        (outs[k], encs[k].len() as int),
    ) by {
        lemma_balance_round_trip(vs[k], t);
        lemma_balance_round_trip(vs[k], tail);
    }
    lemma_counted_round_trip(encs, outs, bal_reader(), tail);
    assert(enc_balances_list(vs) + tail =~= u64_be_bytes(encs.len() as u64) + concat_all(encs) + tail);
}

/// Append the balance list.
#[verifier::loop_isolation(false)]
fn emit_balances_list(out: &mut Vec<u8>, items: &Vec<(Principal, Balance)>)
    requires
        forall|k: int| 0 <= k < items@.len() ==> (#[trigger] items@[k]).1.wf(),
    ensures
        final(out)@ == old(out)@ + enc_balances_list(items@.map_values(|p: (Principal, Balance)| balance_snap(p))),
        balances_list_ok(items@.map_values(|p: (Principal, Balance)| balance_snap(p))),
{
    let ghost base = out@;
    let ghost vs: Seq<BalanceSnap> = items@.map_values(|p: (Principal, Balance)| balance_snap(p));
    let n: usize = items.len();
    emit_u64(out, n as u64);
    let ghost mid = out@;
    let mut i: usize = 0;
    proof {
        let f = |v: BalanceSnap| enc_balance(v);
        assert(concat_all(vs.take(0).map_values(f)) =~= Seq::<u8>::empty());
        assert(out@ =~= mid + concat_all(vs.take(0).map_values(f)));
    }
    while i < n
        invariant
            i <= n,
            n == items@.len(),
            vs == items@.map_values(|p: (Principal, Balance)| balance_snap(p)),
            mid == base + u64_be_bytes(vs.len() as u64),
            out@ =~= mid + concat_all(vs.take(i as int).map_values(|v: BalanceSnap| enc_balance(v))),
            forall|k: int| 0 <= k < i ==> bal_ok(#[trigger] vs[k]),
        decreases n - i,
    {
        emit_balance(out, &items[i]);
        proof {
            let f = |v: BalanceSnap| enc_balance(v);
            assert(vs[i as int] == balance_snap(items@[i as int]));
            assert(vs.take(i + 1).map_values(f) =~= vs.take(i as int).map_values(f).push(
                enc_balance(vs[i as int]),
            ));
            lemma_concat_all_push(vs.take(i as int).map_values(f), enc_balance(vs[i as int]));
            assert(out@ =~= mid + concat_all(vs.take(i + 1).map_values(f)));
        }
        i = i + 1;
    }
    proof {
        assert(vs.take(n as int) =~= vs);
        assert(out@ =~= base + enc_balances_list(vs));
        assert(out@.take(base.len() as int) =~= base);
    }
}

/// The wire form of the daemon list.
pub open spec fn enc_daemons_list(vs: Seq<DaemonView>) -> Seq<u8> {
    u64_be_bytes(vs.len() as u64) + concat_all(vs.map_values(|v: DaemonView| enc_daemon(v)))
}

/// Whether a daemon list fits its length prefixes.
pub open spec fn daemons_list_ok(vs: Seq<DaemonView>) -> bool {
    vs.len() <= u64::MAX && (forall|k: int| 0 <= k < vs.len() ==> daemon_ok(#[trigger] vs[k]))
}

/// An encoded daemon list reads back as itself.
proof fn lemma_daemons_list_round_trip(vs: Seq<DaemonView>, tail: Seq<u8>)
    requires
        daemons_list_ok(vs),
    ensures
        sp_counted(enc_daemons_list(vs) + tail, daemon_reader()) == Some(
            ({
                let r = vs.map_values(|v: DaemonView| sp_daemon(enc_daemon(v) + tail)->Some_0.0);
                r
            }, enc_daemons_list(vs).len() as int),
        ),
{
    let encs = vs.map_values(|v: DaemonView| enc_daemon(v));
    let outs = vs.map_values(|v: DaemonView| sp_daemon(enc_daemon(v) + tail)->Some_0.0);
    assert forall|k: int, t: Seq<u8>|
        0 <= k < encs.len() implies #[trigger] daemon_reader()(encs[k] + t) == Some(
        (outs[k], encs[k].len() as int),
    ) by {
        lemma_daemon_round_trip(vs[k], t);
        lemma_daemon_round_trip(vs[k], tail);
    }
    lemma_counted_round_trip(encs, outs, daemon_reader(), tail);
    assert(enc_daemons_list(vs) + tail =~= u64_be_bytes(encs.len() as u64) + concat_all(encs) + tail);
}

/// Append the daemon list.
fn emit_daemons_list(out: &mut Vec<u8>, items: &Vec<Daemon>)
    ensures
        final(out)@ == old(out)@ + enc_daemons_list(items@.map_values(|d: Daemon| d@)),
        daemons_list_ok(items@.map_values(|d: Daemon| d@)),
{
    let ghost base = out@;
    let ghost vs: Seq<DaemonView> = items@.map_values(|d: Daemon| d@);
    let n: usize = items.len();
    emit_u64(out, n as u64);
    let ghost mid = out@;
    let mut i: usize = 0;
    proof {
        let f = |v: DaemonView| enc_daemon(v);
        assert(concat_all(vs.take(0).map_values(f)) =~= Seq::<u8>::empty());
        assert(out@ =~= mid + concat_all(vs.take(0).map_values(f)));
    }
    while i < n
        invariant
            i <= n,
            n == items@.len(),
            vs == items@.map_values(|d: Daemon| d@),
            mid == base + u64_be_bytes(vs.len() as u64),
            out@ =~= mid + concat_all(vs.take(i as int).map_values(|v: DaemonView| enc_daemon(v))),
            forall|k: int| 0 <= k < i ==> daemon_ok(#[trigger] vs[k]),
        decreases n - i,
    {
        emit_daemon(out, &items[i]);
        proof {
            let f = |v: DaemonView| enc_daemon(v);
            assert(vs[i as int] == items@[i as int]@);
            assert(vs.take(i + 1).map_values(f) =~= vs.take(i as int).map_values(f).push(
                enc_daemon(vs[i as int]),
            ));
            lemma_concat_all_push(vs.take(i as int).map_values(f), enc_daemon(vs[i as int]));
            assert(out@ =~= mid + concat_all(vs.take(i + 1).map_values(f)));
        }
        i = i + 1;
    }
    proof {
        assert(vs.take(n as int) =~= vs);
        assert(out@ =~= base + enc_daemons_list(vs));
        assert(out@.take(base.len() as int) =~= base);
    }
}

/// The wire form of the tracked transaction list.
pub open spec fn enc_pendings(vs: Seq<PendingTransactionView>) -> Seq<u8> {
    u64_be_bytes(vs.len() as u64) + concat_all(vs.map_values(|v: PendingTransactionView| enc_pending(v)))
}

/// Whether a tracked transaction list fits its length prefixes.
pub open spec fn pendings_ok(vs: Seq<PendingTransactionView>) -> bool {
    vs.len() <= u64::MAX && (forall|k: int| 0 <= k < vs.len() ==> pending_ok(#[trigger] vs[k]))
}

/// An encoded tracked transaction list reads back as itself.
proof fn lemma_pendings_round_trip(vs: Seq<PendingTransactionView>, tail: Seq<u8>)
    requires
        pendings_ok(vs),
    ensures
        sp_counted(enc_pendings(vs) + tail, pending_reader()) == Some(
            ({
                let r = vs.map_values(|v: PendingTransactionView| sp_pending(enc_pending(v) + tail)->Some_0.0);
                r
            }, enc_pendings(vs).len() as int),
        ),
{
    let encs = vs.map_values(|v: PendingTransactionView| enc_pending(v));
    let outs = vs.map_values(|v: PendingTransactionView| sp_pending(enc_pending(v) + tail)->Some_0.0);
    assert forall|k: int, t: Seq<u8>|
        0 <= k < encs.len() implies #[trigger] pending_reader()(encs[k] + t) == Some(
        (outs[k], encs[k].len() as int),
    ) by {
        lemma_pending_round_trip(vs[k], t);
        lemma_pending_round_trip(vs[k], tail);
    }
    lemma_counted_round_trip(encs, outs, pending_reader(), tail);
    assert(enc_pendings(vs) + tail =~= u64_be_bytes(encs.len() as u64) + concat_all(encs) + tail);
}

/// Append the tracked transaction list.
fn emit_pendings(out: &mut Vec<u8>, items: &Vec<PendingTransaction>)
    ensures
        final(out)@ == old(out)@ + enc_pendings(items@.map_values(|t: PendingTransaction| t@)),
        pendings_ok(items@.map_values(|t: PendingTransaction| t@)),
{
    let ghost base = out@;
    let ghost vs: Seq<PendingTransactionView> = items@.map_values(|t: PendingTransaction| t@);
    let n: usize = items.len();
    emit_u64(out, n as u64);
    let ghost mid = out@;
    let mut i: usize = 0;
    proof {
        let f = |v: PendingTransactionView| enc_pending(v);
        assert(concat_all(vs.take(0).map_values(f)) =~= Seq::<u8>::empty());
        assert(out@ =~= mid + concat_all(vs.take(0).map_values(f)));
    }
    while i < n
        invariant
            i <= n,
            n == items@.len(),
            vs == items@.map_values(|t: PendingTransaction| t@),
            mid == base + u64_be_bytes(vs.len() as u64),
            out@ =~= mid + concat_all(vs.take(i as int).map_values(|v: PendingTransactionView| enc_pending(v))),
            forall|k: int| 0 <= k < i ==> pending_ok(#[trigger] vs[k]),
        decreases n - i,
    {
        emit_pending(out, &items[i]);
        proof {
            let f = |v: PendingTransactionView| enc_pending(v);
            assert(vs[i as int] == items@[i as int]@);
            assert(vs.take(i + 1).map_values(f) =~= vs.take(i as int).map_values(f).push(
                enc_pending(vs[i as int]),
            ));
            lemma_concat_all_push(vs.take(i as int).map_values(f), enc_pending(vs[i as int]));
            assert(out@ =~= mid + concat_all(vs.take(i + 1).map_values(f)));
        }
        i = i + 1;
    }
    proof {
        assert(vs.take(n as int) =~= vs);
        assert(out@ =~= base + enc_pendings(vs));
        assert(out@.take(base.len() as int) =~= base);
    }
}


/// Read the meta_slots list.
#[verifier::loop_isolation(false)]
fn parse_meta_slots(data: &Vec<u8>, pos: usize) -> (r: Option<(Vec<Option<ChainMetadata>>, usize)>)
    requires
        pos <= data@.len(),
    ensures
        (r is Some) <==> (sp_counted(data@.skip(pos as int), meta_reader()) is Some),
        r matches Some(p) ==> (sp_counted(data@.skip(pos as int), meta_reader()) matches Some(sv)
            && sv.1 == p.1 - pos as int && crate::types::slot_views(p.0@) == sv.0) && pos < p.1 <= data@.len(),
{
    let (n, first) = match parse_u64(data, pos) {
        Some(p) => p,
        None => {
            return None;
        },
    };
    let mut cur = first;
    proof {
        assert(data@.skip(pos as int).skip(8) =~= data@.skip(cur as int));
    }
    let mut acc: Vec<Option<ChainMetadata>> = Vec::new();
    let mut k: u64 = 0;
    proof {
        assert(crate::types::slot_views(acc@) =~= Seq::<Option<ChainMetadataView>>::empty());
    }
    while k < n
        invariant
            pos + 8 <= cur <= data@.len(),
            k <= n,
            acc@.len() == k,
            sp_counted(data@.skip(pos as int), meta_reader()) == (match sp_items(
                data@.skip(cur as int),
                (n - k) as nat,
                meta_reader(),
            ) {
                None => None::<(Seq<Option<ChainMetadataView>>, int)>,
                Some((vs, c)) => Some((crate::types::slot_views(acc@) + vs, ((cur - pos) + c) as int)),
            }),
        decreases n - k,
    {
        let (e, np) = match parse_meta_slot(data, cur) {
            Some(p) => p,
            None => {
                return None;
            },
        };
        proof {
            assert(data@.skip(cur as int).skip(np - cur) =~= data@.skip(np as int));
        }
        let ghost acc0 = crate::types::slot_views(acc@);
        acc.push(e);
        proof {
            let accn = crate::types::slot_views(acc@);
            assert(accn =~= acc0.push((match acc@.last() { Some(m) => Some(m@), None => None })));
            assert(forall|vs: Seq<Option<ChainMetadataView>>| acc0 + (seq![accn.last()] + vs) =~= accn + vs);
        }
        cur = np;
        k = k + 1;
    }
    proof {
        assert(crate::types::slot_views(acc@) + Seq::<Option<ChainMetadataView>>::empty() =~= crate::types::slot_views(acc@));
    }
    Some((acc, cur))
}

/// Read the evm_slots list.
#[verifier::loop_isolation(false)]
fn parse_evm_slots(data: &Vec<u8>, pos: usize) -> (r: Option<(Vec<Option<EvmChain>>, usize)>)
    requires
        pos <= data@.len(),
    ensures
        (r is Some) <==> (sp_counted(data@.skip(pos as int), evm_reader()) is Some),
        r matches Some(p) ==> (sp_counted(data@.skip(pos as int), evm_reader()) matches Some(sv)
            && sv.1 == p.1 - pos as int && crate::types::slot_views(p.0@) == sv.0) && pos < p.1 <= data@.len(),
{
    let (n, first) = match parse_u64(data, pos) {
        Some(p) => p,
        None => {
            return None;
        },
    };
    let mut cur = first;
    proof {
        assert(data@.skip(pos as int).skip(8) =~= data@.skip(cur as int));
    }
    let mut acc: Vec<Option<EvmChain>> = Vec::new();
    let mut k: u64 = 0;
    proof {
        assert(crate::types::slot_views(acc@) =~= Seq::<Option<EvmChainView>>::empty());
    }
    while k < n
        invariant
            pos + 8 <= cur <= data@.len(),
            k <= n,
            acc@.len() == k,
            sp_counted(data@.skip(pos as int), evm_reader()) == (match sp_items(
                data@.skip(cur as int),
                (n - k) as nat,
                evm_reader(),
            ) {
                None => None::<(Seq<Option<EvmChainView>>, int)>,
                Some((vs, c)) => Some((crate::types::slot_views(acc@) + vs, ((cur - pos) + c) as int)),
            }),
        decreases n - k,
    {
        let (e, np) = match parse_evm_slot(data, cur) {
            Some(p) => p,
            None => {
                return None;
            },
        };
        proof {
            assert(data@.skip(cur as int).skip(np - cur) =~= data@.skip(np as int));
        }
        let ghost acc0 = crate::types::slot_views(acc@);
        acc.push(e);
        proof {
            let accn = crate::types::slot_views(acc@);
            assert(accn =~= acc0.push((match acc@.last() { Some(c) => Some(c@), None => None })));
            assert(forall|vs: Seq<Option<EvmChainView>>| acc0 + (seq![accn.last()] + vs) =~= accn + vs);
        }
        cur = np;
        k = k + 1;
    }
    proof {
        assert(crate::types::slot_views(acc@) + Seq::<Option<EvmChainView>>::empty() =~= crate::types::slot_views(acc@));
    }
    Some((acc, cur))
}

/// Read the messages list.
#[verifier::loop_isolation(false)]
fn parse_messages(data: &Vec<u8>, pos: usize) -> (r: Option<(Vec<Message>, usize)>)
    requires
        pos <= data@.len(),
    ensures
        (r is Some) <==> (sp_counted(data@.skip(pos as int), msg_reader()) is Some),
        r matches Some(p) ==> (sp_counted(data@.skip(pos as int), msg_reader()) matches Some(sv)
            && sv.1 == p.1 - pos as int && p.0@.map_values(|m: Message| m@) == sv.0) && pos < p.1 <= data@.len(),
{
    let (n, first) = match parse_u64(data, pos) {
        Some(p) => p,
        None => {
            return None;
        },
    };
    let mut cur = first;
    proof {
        assert(data@.skip(pos as int).skip(8) =~= data@.skip(cur as int));
    }
    let mut acc: Vec<Message> = Vec::new();
    let mut k: u64 = 0;
    proof {
        assert(acc@.map_values(|m: Message| m@) =~= Seq::<MessageView>::empty());
    }
    while k < n
        invariant
            pos + 8 <= cur <= data@.len(),
            k <= n,
            acc@.len() == k,
            sp_counted(data@.skip(pos as int), msg_reader()) == (match sp_items(
                data@.skip(cur as int),
                (n - k) as nat,
                msg_reader(),
            ) {
                None => None::<(Seq<MessageView>, int)>,
                Some((vs, c)) => Some((acc@.map_values(|m: Message| m@) + vs, ((cur - pos) + c) as int)),
            }),
        decreases n - k,
    {
        let (e, np) = match parse_message(data, cur) {
            Some(p) => p,
            None => {
                return None;
            },
        };
        proof {
            assert(data@.skip(cur as int).skip(np - cur) =~= data@.skip(np as int));
        }
        let ghost acc0 = acc@.map_values(|m: Message| m@);
        acc.push(e);
        proof {
            let accn = acc@.map_values(|m: Message| m@);
            assert(accn =~= acc0.push(acc@.last()@));
            assert(forall|vs: Seq<MessageView>| acc0 + (seq![accn.last()] + vs) =~= accn + vs);
        }
        cur = np;
        k = k + 1;
    }
    proof {
        assert(acc@.map_values(|m: Message| m@) + Seq::<MessageView>::empty() =~= acc@.map_values(|m: Message| m@));
    }
    Some((acc, cur))
}

/// Read the balances_list list.
#[verifier::loop_isolation(false)]
fn parse_balances_list(data: &Vec<u8>, pos: usize) -> (r: Option<(Vec<(Principal, Balance)>, usize)>)
    requires
        pos <= data@.len(),
    ensures
        (r is Some) <==> (sp_counted(data@.skip(pos as int), bal_reader()) is Some),
        r matches Some(p) ==> (sp_counted(data@.skip(pos as int), bal_reader()) matches Some(sv)
            && sv.1 == p.1 - pos as int && p.0@.map_values(|q: (Principal, Balance)| (q.0@, q.1@)) == sv.0) && (forall|k: int|
            0 <= k < p.0@.len() ==> (#[trigger] p.0@[k]).1.wf()) && pos < p.1 <= data@.len(),
{
    let (n, first) = match parse_u64(data, pos) {
        Some(p) => p,
        None => {
            return None;
        },
    };
    let mut cur = first;
    proof {
        assert(data@.skip(pos as int).skip(8) =~= data@.skip(cur as int));
    }
    let mut acc: Vec<(Principal, Balance)> = Vec::new();
    let mut k: u64 = 0;
    proof {
        assert(acc@.map_values(|q: (Principal, Balance)| (q.0@, q.1@)) =~= Seq::<(Seq<u8>, BalanceView)>::empty());
    }
    while k < n
        invariant
            pos + 8 <= cur <= data@.len(),
            k <= n,
            acc@.len() == k,
            sp_counted(data@.skip(pos as int), bal_reader()) == (match sp_items(
                data@.skip(cur as int),
                (n - k) as nat,
                bal_reader(),
            ) {
                None => None::<(Seq<(Seq<u8>, BalanceView)>, int)>,
                Some((vs, c)) => Some((acc@.map_values(|q: (Principal, Balance)| (q.0@, q.1@)) + vs, ((cur - pos) + c) as int)),
            }),
            forall|t: int| 0 <= t < acc@.len() ==> (#[trigger] acc@[t]).1.wf(),
        decreases n - k,
    {
        let (e, np) = match parse_balance(data, cur) {
            Some(p) => p,
            None => {
                return None;
            },
        };
        proof {
            assert(data@.skip(cur as int).skip(np - cur) =~= data@.skip(np as int));
        }
        let ghost acc0 = acc@.map_values(|q: (Principal, Balance)| (q.0@, q.1@));
        acc.push(e);
        proof {
            let accn = acc@.map_values(|q: (Principal, Balance)| (q.0@, q.1@));
            assert(accn =~= acc0.push((acc@.last().0@, acc@.last().1@)));
            assert(forall|vs: Seq<(Seq<u8>, BalanceView)>| acc0 + (seq![accn.last()] + vs) =~= accn + vs);
        }
        cur = np;
        k = k + 1;
    }
    proof {
        assert(acc@.map_values(|q: (Principal, Balance)| (q.0@, q.1@)) + Seq::<(Seq<u8>, BalanceView)>::empty() =~= acc@.map_values(|q: (Principal, Balance)| (q.0@, q.1@)));
    }
    Some((acc, cur))
}

/// Read the daemons_list list.
#[verifier::loop_isolation(false)]
fn parse_daemons_list(data: &Vec<u8>, pos: usize) -> (r: Option<(Vec<Daemon>, usize)>)
    requires
        pos <= data@.len(),
    ensures
        (r is Some) <==> (sp_counted(data@.skip(pos as int), daemon_reader()) is Some),
        r matches Some(p) ==> (sp_counted(data@.skip(pos as int), daemon_reader()) matches Some(sv)
            && sv.1 == p.1 - pos as int && p.0@.map_values(|d: Daemon| d@) == sv.0) && pos < p.1 <= data@.len(),
{
    let (n, first) = match parse_u64(data, pos) {
        Some(p) => p,
        None => {
            return None;
        },
    };
    let mut cur = first;
    proof {
        assert(data@.skip(pos as int).skip(8) =~= data@.skip(cur as int));
    }
    let mut acc: Vec<Daemon> = Vec::new();
    let mut k: u64 = 0;
    proof {
        assert(acc@.map_values(|d: Daemon| d@) =~= Seq::<DaemonView>::empty());
    }
    while k < n
        invariant
            pos + 8 <= cur <= data@.len(),
            k <= n,
            acc@.len() == k,
            sp_counted(data@.skip(pos as int), daemon_reader()) == (match sp_items(
                data@.skip(cur as int),
                (n - k) as nat,
                daemon_reader(),
            ) {
                None => None::<(Seq<DaemonView>, int)>,
                Some((vs, c)) => Some((acc@.map_values(|d: Daemon| d@) + vs, ((cur - pos) + c) as int)),
            }),
        decreases n - k,
    {
        let (e, np) = match parse_daemon(data, cur) {
            Some(p) => p,
            None => {
                return None;
            },
        };
        proof {
            assert(data@.skip(cur as int).skip(np - cur) =~= data@.skip(np as int));
        }
        let ghost acc0 = acc@.map_values(|d: Daemon| d@);
        acc.push(e);
        proof {
            let accn = acc@.map_values(|d: Daemon| d@);
            assert(accn =~= acc0.push(acc@.last()@));
            assert(forall|vs: Seq<DaemonView>| acc0 + (seq![accn.last()] + vs) =~= accn + vs);
        }
        cur = np;
        k = k + 1;
    }
    proof {
        assert(acc@.map_values(|d: Daemon| d@) + Seq::<DaemonView>::empty() =~= acc@.map_values(|d: Daemon| d@));
    }
    Some((acc, cur))
}

/// Read the pendings list.
#[verifier::loop_isolation(false)]
#[verifier::spinoff_prover]
#[verifier::rlimit(100)]
fn parse_pendings(data: &Vec<u8>, pos: usize) -> (r: Option<(Vec<PendingTransaction>, usize)>)
    requires
        pos <= data@.len(),
    ensures
        (r is Some) <==> (sp_counted(data@.skip(pos as int), pending_reader()) is Some),
        r matches Some(p) ==> (sp_counted(data@.skip(pos as int), pending_reader()) matches Some(sv)
            && sv.1 == p.1 - pos as int && p.0@.map_values(|t: PendingTransaction| t@) == sv.0) && pos < p.1 <= data@.len(),
{
    let (n, first) = match parse_u64(data, pos) {
        Some(p) => p,
        None => {
            return None;
        },
    };
    let mut cur = first;
    proof {
        assert(data@.skip(pos as int).skip(8) =~= data@.skip(cur as int));
    }
    let mut acc: Vec<PendingTransaction> = Vec::new();
    let mut k: u64 = 0;
    proof {
        assert(acc@.map_values(|t: PendingTransaction| t@) =~= Seq::<PendingTransactionView>::empty());
    }
    while k < n
        invariant
            pos + 8 <= cur <= data@.len(),
            k <= n,
            acc@.len() == k,
            sp_counted(data@.skip(pos as int), pending_reader()) == (match sp_items(
                data@.skip(cur as int),
                (n - k) as nat,
                pending_reader(),
            ) {
                None => None::<(Seq<PendingTransactionView>, int)>,
                Some((vs, c)) => Some((acc@.map_values(|t: PendingTransaction| t@) + vs, ((cur - pos) + c) as int)),
            }),
        decreases n - k,
    {
        let (e, np) = match parse_pending(data, cur) {
            Some(p) => p,
            None => {
                return None;
            },
        };
        proof {
            assert(data@.skip(cur as int).skip(np - cur) =~= data@.skip(np as int));
        }
        let ghost acc0 = acc@.map_values(|t: PendingTransaction| t@);
        acc.push(e);
        proof {
            let accn = acc@.map_values(|t: PendingTransaction| t@);
            assert(accn =~= acc0.push(acc@.last()@));
            assert(forall|vs: Seq<PendingTransactionView>| acc0 + (seq![accn.last()] + vs) =~= accn + vs);
        }
        cur = np;
        k = k + 1;
    }
    proof {
        assert(acc@.map_values(|t: PendingTransaction| t@) + Seq::<PendingTransactionView>::empty() =~= acc@.map_values(|t: PendingTransaction| t@));
    }
    Some((acc, cur))
}

/// The head of the snapshot: key, cached public key, chain tables and
/// the three stage jobs.
pub open spec fn enc_storage_head(v: StorageView) -> Seq<u8> {
    enc_string(v.key) + enc_string(v.public_key) + enc_meta_slots(v.chains_metadata)
        + enc_evm_slots(v.evm_chains) + enc_job(v.signer_job) + enc_job(v.writer_job) + enc_job(
        v.checker_job,
    )
}

/// The whole snapshot: the head, the three queues, the ledger and the
/// daemons. The ledger goes on the wire in stored order.
pub open spec fn enc_storage(v: StorageView, snaps: Seq<BalanceSnap>) -> Seq<u8> {
    enc_storage_head(v) + enc_messages(v.listened) + enc_messages(v.signed) + enc_balances_list(
        snaps,
    ) + enc_daemons_list(v.daemons) + enc_pendings(v.pending)
}

/// Whether a state fits the snapshot format's length prefixes and
/// carries the structure a reader will accept.
pub open spec fn storage_ok(v: StorageView, snaps: Seq<BalanceSnap>) -> bool {
    &&& str_ok(v.key)
    &&& str_ok(v.public_key)
    &&& meta_slots_ok(v.chains_metadata)
    &&& evm_slots_ok(v.evm_chains)
    &&& messages_ok(v.listened)
    &&& messages_ok(v.signed)
    &&& balances_list_ok(snaps)
    &&& daemons_list_ok(v.daemons)
    &&& pendings_ok(v.pending)
    &&& v.chains_metadata.len() == v.evm_chains.len()
    &&& v.signer_job.job_type == JobType::Signer
    &&& v.writer_job.job_type == JobType::Writer
    &&& v.checker_job.job_type == JobType::Checker
    &&& (forall|i: int, j: int|
        0 <= i < j < snaps.len() ==> (#[trigger] snaps[i]).principal != (
        #[trigger] snaps[j]).principal)
    &&& (forall|k: int| 0 <= k < v.daemons.len() ==> (#[trigger] v.daemons[k]).id == k)
}

/// Read the snapshot head.
pub open spec fn sp_storage_head(input: Seq<u8>) -> Option<
    (
        (
            Seq<char>,
            Seq<char>,
            Seq<Option<ChainMetadataView>>,
            Seq<Option<EvmChainView>>,
            JobView,
            JobView,
            JobView,
        ),
        int,
    ),
> {
    match sp_string(input) {
        None => None,
        Some((key, c1)) => match sp_string(input.skip(c1)) {
            None => None,
            Some((public_key, c2)) => match sp_counted(input.skip(c1 + c2), meta_reader()) {
                None => None,
                Some((metas, c3)) => match sp_counted(input.skip(c1 + c2 + c3), evm_reader()) {
                    None => None,
                    Some((evms, c4)) => match sp_job(input.skip(c1 + c2 + c3 + c4)) {
                        None => None,
                        Some((sj, c5)) => match sp_job(input.skip(c1 + c2 + c3 + c4 + c5)) {
                            None => None,
                            Some((wj, c6)) => match sp_job(
                                input.skip(c1 + c2 + c3 + c4 + c5 + c6),
                            ) {
                                None => None,
                                Some((cj, c7)) => Some(
                                    (
                                        (key, public_key, metas, evms, sj, wj, cj),
                                        c1 + c2 + c3 + c4 + c5 + c6 + c7,
                                    ),
                                ),
                            },
                        },
                    },
                },
            },
        },
    }
}

/// The map a run of read balances stands for.
pub open spec fn pairs2_to_map(s: Seq<(Seq<u8>, BalanceView)>) -> Map<Seq<u8>, BalanceView>
    decreases s.len(),
{
    if s.len() == 0 {
        Map::empty()
    } else {
        pairs2_to_map(s.drop_last()).insert(s.last().0, s.last().1)
    }
}

/// What a read state must look like before it is accepted: one
/// client slot per chain, each stage job on its own duty, every
/// principal once, every daemon in the slot its id names.
pub open spec fn parsed_guards(
    h: (
        Seq<char>,
        Seq<char>,
        Seq<Option<ChainMetadataView>>,
        Seq<Option<EvmChainView>>,
        JobView,
        JobView,
        JobView,
    ),
    pairs: Seq<(Seq<u8>, BalanceView)>,
    daemons: Seq<DaemonView>,
) -> bool {
    &&& h.2.len() == h.3.len()
    &&& h.4.job_type == JobType::Signer
    &&& h.5.job_type == JobType::Writer
    &&& h.6.job_type == JobType::Checker
    &&& (forall|i: int, j: int|
        0 <= i < j < pairs.len() ==> (#[trigger] pairs[i]).0 != (#[trigger] pairs[j]).0)
    &&& (forall|k: int| 0 <= k < daemons.len() ==> (#[trigger] daemons[k]).id == k)
}

/// Read a whole snapshot back into a state.
pub open spec fn sp_storage(input: Seq<u8>) -> Option<(StorageView, int)> {
    match sp_storage_head(input) {
        None => None,
        Some((h, c)) => match sp_counted(input.skip(c), msg_reader()) {
            None => None,
            Some((listened, c8)) => match sp_counted(input.skip(c + c8), msg_reader()) {
                None => None,
                Some((signed, c9)) => match sp_counted(input.skip(c + c8 + c9), bal_reader()) {
                    None => None,
                    Some((pairs, c10)) => match sp_counted(
                        input.skip(c + c8 + c9 + c10),
                        daemon_reader(),
                    ) {
                        None => None,
                        Some((daemons, c11)) => match sp_counted(
                            input.skip(c + c8 + c9 + c10 + c11),
                            pending_reader(),
                        ) {
                            None => None,
                            Some((pendings, c12)) => {
                                if parsed_guards(h, pairs, daemons) {
                                    Some(
                                        (
                                            StorageView {
                                                key: h.0,
                                                public_key: h.1,
                                                chains_metadata: h.2,
                                                evm_chains: h.3,
                                                signer_job: h.4,
                                                writer_job: h.5,
                                                checker_job: h.6,
                                                listened,
                                                signed,
                                                balances: pairs2_to_map(pairs),
                                                daemons,
                                                pending: pendings,
                                            },
                                            c + c8 + c9 + c10 + c11 + c12,
                                        ),
                                    )
                                } else {
                                    None
                                }
                            },
                        },
                    },
                },
            },
        },
    }
}

/// A state with every timer handle forgotten: what a snapshot keeps.
pub open spec fn scrub(v: StorageView) -> StorageView {
    StorageView {
        signer_job: scrub_job(v.signer_job),
        writer_job: scrub_job(v.writer_job),
        checker_job: scrub_job(v.checker_job),
        daemons: v.daemons.map_values(|d: DaemonView| scrub_daemon(d)),
        ..v
    }
}

/// An encoded head reads back as itself, jobs scrubbed.
#[verifier::rlimit(100)]
#[verifier::spinoff_prover]
proof fn lemma_storage_head_round_trip(v: StorageView, tail: Seq<u8>)
    requires
        str_ok(v.key),
        str_ok(v.public_key),
        meta_slots_ok(v.chains_metadata),
        evm_slots_ok(v.evm_chains),
    ensures
        sp_storage_head(enc_storage_head(v) + tail) == Some(
            (
                (
                    v.key,
                    v.public_key,
                    v.chains_metadata,
                    v.evm_chains,
                    scrub_job(v.signer_job),
                    scrub_job(v.writer_job),
                    scrub_job(v.checker_job),
                ),
                enc_storage_head(v).len() as int,
            ),
        ),
{
    let whole = enc_storage_head(v) + tail;
    let e1 = enc_string(v.key);
    let e2 = enc_string(v.public_key);
    let e3 = enc_meta_slots(v.chains_metadata);
    let e4 = enc_evm_slots(v.evm_chains);
    let e5 = enc_job(v.signer_job);
    let e6 = enc_job(v.writer_job);
    let e7 = enc_job(v.checker_job);
    let c1 = e1.len() as int;
    let c2 = e2.len() as int;
    let c3 = e3.len() as int;
    let c4 = e4.len() as int;
    let c5 = e5.len() as int;
    let c6 = e6.len() as int;
    assert(whole =~= e1 + (e2 + (e3 + (e4 + (e5 + (e6 + (e7 + tail)))))));
    lemma_string_round_trip(v.key, e2 + (e3 + (e4 + (e5 + (e6 + (e7 + tail))))));
    assert(whole.skip(c1) =~= e2 + (e3 + (e4 + (e5 + (e6 + (e7 + tail))))));
    lemma_string_round_trip(v.public_key, e3 + (e4 + (e5 + (e6 + (e7 + tail)))));
    assert(whole.skip(c1 + c2) =~= e3 + (e4 + (e5 + (e6 + (e7 + tail)))));
    lemma_meta_slots_round_trip(v.chains_metadata, e4 + (e5 + (e6 + (e7 + tail))));
    assert forall|k: int|
        0 <= k < v.chains_metadata.len() implies #[trigger] sp_meta_slot(
        enc_meta_slot(v.chains_metadata[k]) + (e4 + (e5 + (e6 + (e7 + tail)))),
    )->Some_0.0 == v.chains_metadata[k] by {
        lemma_meta_slot_round_trip(v.chains_metadata[k], e4 + (e5 + (e6 + (e7 + tail))));
    }
    assert(v.chains_metadata.map_values(
        |o: Option<ChainMetadataView>|
            sp_meta_slot(enc_meta_slot(o) + (e4 + (e5 + (e6 + (e7 + tail)))))->Some_0.0,
    ) =~= v.chains_metadata);
    assert(whole.skip(c1 + c2 + c3) =~= e4 + (e5 + (e6 + (e7 + tail))));
    lemma_evm_slots_round_trip(v.evm_chains, e5 + (e6 + (e7 + tail)));
    assert forall|k: int|
        0 <= k < v.evm_chains.len() implies #[trigger] sp_evm_slot(
        enc_evm_slot(v.evm_chains[k]) + (e5 + (e6 + (e7 + tail))),
    )->Some_0.0 == v.evm_chains[k] by {
        lemma_evm_slot_round_trip(v.evm_chains[k], e5 + (e6 + (e7 + tail)));
    }
    assert(v.evm_chains.map_values(
        |o: Option<EvmChainView>|
            sp_evm_slot(enc_evm_slot(o) + (e5 + (e6 + (e7 + tail))))->Some_0.0,
    ) =~= v.evm_chains);
    assert(whole.skip(c1 + c2 + c3 + c4) =~= e5 + (e6 + (e7 + tail)));
    lemma_job_round_trip(v.signer_job, e6 + (e7 + tail));
    assert(whole.skip(c1 + c2 + c3 + c4 + c5) =~= e6 + (e7 + tail));
    lemma_job_round_trip(v.writer_job, e7 + tail);
    assert(whole.skip(c1 + c2 + c3 + c4 + c5 + c6) =~= e7 + tail);
    lemma_job_round_trip(v.checker_job, tail);
}

/// Whether a stored entry run is well formed: ids once, nonces once.
fn entry_list_wf(v: &Vec<(u64, ChainEntry)>) -> (r: bool)
    ensures
        r == entry_pairs_wf(v@.map_values(|e: (u64, ChainEntry)| (e.0, e.1@))),
{
    let ghost pairs = v@.map_values(|e: (u64, ChainEntry)| (e.0, e.1@));
    let mut i: usize = 0;
    while i < v.len()
        invariant
            i <= v@.len(),
            pairs == v@.map_values(|e: (u64, ChainEntry)| (e.0, e.1@)),
            forall|a: int, b: int|
                0 <= a < b < i ==> (#[trigger] pairs[a]).0 != (#[trigger] pairs[b]).0,
            forall|k: int|
                0 <= k < i ==> crate::types::balances::nonces_distinct(
                    (#[trigger] pairs[k]).1.nonces,
                ),
        decreases v@.len() - i,
    {
        let mut j: usize = 0;
        while j < i
            invariant
                j <= i < v@.len(),
                pairs == v@.map_values(|e: (u64, ChainEntry)| (e.0, e.1@)),
                forall|a: int| 0 <= a < j ==> (#[trigger] pairs[a]).0 != pairs[i as int].0,
            decreases i - j,
        {
            if v[j].0 == v[i].0 {
                proof {
                    assert(pairs[j as int].0 == pairs[i as int].0);
                }
                return false;
            }
            j = j + 1;
        }
        if !nonce_run_distinct(&v[i].1.nonce) {
            proof {
                assert(!crate::types::balances::nonces_distinct(pairs[i as int].1.nonces));
            }
            return false;
        }
        i = i + 1;
    }
    true
}

/// Whether a run of nonces repeats none.
fn nonce_run_distinct(v: &Vec<u64>) -> (r: bool)
    ensures
        r == crate::types::balances::nonces_distinct(v@),
{
    let mut i: usize = 0;
    while i < v.len()
        invariant
            i <= v@.len(),
            forall|a: int, b: int| 0 <= a < b < i ==> v@[a] != v@[b],
        decreases v@.len() - i,
    {
        let mut j: usize = 0;
        while j < i
            invariant
                j <= i < v@.len(),
                forall|a: int| 0 <= a < j ==> v@[a] != v@[i as int],
            decreases i - j,
        {
            if v[j] == v[i] {
                return false;
            }
            j = j + 1;
        }
        i = i + 1;
    }
    true
}

/// A stored ledger and its wire reading stand for the same map.
proof fn lemma_assoc_as_pairs2(l: Seq<(Principal, Balance)>)
    ensures
        pairs2_to_map(l.map_values(|q: (Principal, Balance)| (q.0@, q.1@)))
            == crate::types::assoc::assoc_map(l),
    decreases l.len(),
{
    let f = |q: (Principal, Balance)| (q.0@, q.1@);
    if l.len() == 0 {
        assert(l.map_values(f).len() == 0);
        assert(pairs2_to_map(l.map_values(f)) =~= crate::types::assoc::assoc_map(l));
    } else {
        lemma_assoc_as_pairs2(l.drop_last());
        assert(l.map_values(f).drop_last() =~= l.drop_last().map_values(f));
        assert(l.map_values(f).last() == (l.last().0@, l.last().1@));
        assert(pairs2_to_map(l.map_values(f)) =~= crate::types::assoc::assoc_map(l));
    }
}

/// An encoded message list reads back as exactly its messages.
proof fn lemma_messages_exact(ms: Seq<MessageView>, tail: Seq<u8>)
    requires
        messages_ok(ms),
    ensures
        sp_counted(enc_messages(ms) + tail, msg_reader()) == Some(
            (ms, enc_messages(ms).len() as int),
        ),
{
    lemma_messages_round_trip(ms, tail);
    assert forall|k: int|
        0 <= k < ms.len() implies #[trigger] sp_message(enc_message(ms[k]) + tail)->Some_0.0
        == ms[k] by {
        lemma_message_round_trip(ms[k], tail);
    }
    assert(ms.map_values(|m: MessageView| sp_message(enc_message(m) + tail)->Some_0.0) =~= ms);
}

/// An encoded metadata list reads back as exactly its slots.
proof fn lemma_meta_slots_exact(vs: Seq<Option<ChainMetadataView>>, tail: Seq<u8>)
    requires
        meta_slots_ok(vs),
    ensures
        sp_counted(enc_meta_slots(vs) + tail, meta_reader()) == Some(
            (vs, enc_meta_slots(vs).len() as int),
        ),
{
    lemma_meta_slots_round_trip(vs, tail);
    assert forall|k: int|
        0 <= k < vs.len() implies #[trigger] sp_meta_slot(enc_meta_slot(vs[k]) + tail)->Some_0.0
        == vs[k] by {
        lemma_meta_slot_round_trip(vs[k], tail);
    }
    assert(vs.map_values(
        |o: Option<ChainMetadataView>| sp_meta_slot(enc_meta_slot(o) + tail)->Some_0.0,
    ) =~= vs);
}

/// An encoded EVM client list reads back as exactly its slots.
proof fn lemma_evm_slots_exact(vs: Seq<Option<EvmChainView>>, tail: Seq<u8>)
    requires
        evm_slots_ok(vs),
    ensures
        sp_counted(enc_evm_slots(vs) + tail, evm_reader()) == Some(
            (vs, enc_evm_slots(vs).len() as int),
        ),
{
    lemma_evm_slots_round_trip(vs, tail);
    assert forall|k: int|
        0 <= k < vs.len() implies #[trigger] sp_evm_slot(enc_evm_slot(vs[k]) + tail)->Some_0.0
        == vs[k] by {
        lemma_evm_slot_round_trip(vs[k], tail);
    }
    assert(vs.map_values(
        |o: Option<EvmChainView>| sp_evm_slot(enc_evm_slot(o) + tail)->Some_0.0,
    ) =~= vs);
}

/// An encoded daemon list reads back as its daemons, timers gone.
proof fn lemma_daemons_exact(ds: Seq<DaemonView>, tail: Seq<u8>)
    requires
        daemons_list_ok(ds),
    ensures
        sp_counted(enc_daemons_list(ds) + tail, daemon_reader()) == Some(
            (ds.map_values(|d: DaemonView| scrub_daemon(d)), enc_daemons_list(ds).len() as int),
        ),
{
    lemma_daemons_list_round_trip(ds, tail);
    assert forall|k: int|
        0 <= k < ds.len() implies #[trigger] sp_daemon(enc_daemon(ds[k]) + tail)->Some_0.0
        == scrub_daemon(ds[k]) by {
        lemma_daemon_round_trip(ds[k], tail);
    }
    assert(ds.map_values(|d: DaemonView| sp_daemon(enc_daemon(d) + tail)->Some_0.0)
        =~= ds.map_values(|d: DaemonView| scrub_daemon(d)));
}

/// An encoded ledger list reads back as its balances.
proof fn lemma_balances_exact(snaps: Seq<BalanceSnap>, tail: Seq<u8>)
    requires
        balances_list_ok(snaps),
    ensures
        sp_counted(enc_balances_list(snaps) + tail, bal_reader()) == Some(
            (
                snaps.map_values(|b: BalanceSnap| bal_view(b)),
                enc_balances_list(snaps).len() as int,
            ),
        ),
{
    lemma_balances_list_round_trip(snaps, tail);
    assert forall|k: int|
        0 <= k < snaps.len() implies #[trigger] sp_balance(enc_balance(snaps[k]) + tail)->Some_0.0
        == bal_view(snaps[k]) by {
        lemma_balance_round_trip(snaps[k], tail);
    }
    assert(snaps.map_values(|b: BalanceSnap| sp_balance(enc_balance(b) + tail)->Some_0.0)
        =~= snaps.map_values(|b: BalanceSnap| bal_view(b)));
}

/// An encoded tracked-transaction list reads back as exactly itself.
proof fn lemma_pendings_exact(ps: Seq<PendingTransactionView>, tail: Seq<u8>)
    requires
        pendings_ok(ps),
    ensures
        sp_counted(enc_pendings(ps) + tail, pending_reader()) == Some(
            (ps, enc_pendings(ps).len() as int),
        ),
{
    lemma_pendings_round_trip(ps, tail);
    assert forall|k: int|
        0 <= k < ps.len() implies #[trigger] sp_pending(enc_pending(ps[k]) + tail)->Some_0.0
        == ps[k] by {
        lemma_pending_round_trip(ps[k], tail);
    }
    assert(ps.map_values(|p: PendingTransactionView| sp_pending(enc_pending(p) + tail)->Some_0.0)
        =~= ps);
}

/// An encoded state reads back as itself with every timer gone.
#[verifier::rlimit(100)]
#[verifier::spinoff_prover]
proof fn lemma_storage_round_trip(v: StorageView, snaps: Seq<BalanceSnap>, tail: Seq<u8>)
    requires
        storage_ok(v, snaps),
    ensures
        sp_storage(enc_storage(v, snaps) + tail) == Some(
            (
                (StorageView {
                    balances: pairs2_to_map(snaps.map_values(|b: BalanceSnap| bal_view(b))),
                    ..scrub(v)
                }),
                enc_storage(v, snaps).len() as int,
            ),
        ),
{
    let whole = enc_storage(v, snaps) + tail;
    let e0 = enc_storage_head(v);
    let e8 = enc_messages(v.listened);
    let e9 = enc_messages(v.signed);
    let e10 = enc_balances_list(snaps);
    let e11 = enc_daemons_list(v.daemons);
    let e12 = enc_pendings(v.pending);
    let c = e0.len() as int;
    let c8 = e8.len() as int;
    let c9 = e9.len() as int;
    let c10 = e10.len() as int;
    let c11 = e11.len() as int;
    assert(whole =~= e0 + (e8 + (e9 + (e10 + (e11 + (e12 + tail))))));
    lemma_storage_head_round_trip(v, e8 + (e9 + (e10 + (e11 + (e12 + tail)))));
    assert(whole.skip(c) =~= e8 + (e9 + (e10 + (e11 + (e12 + tail)))));
    lemma_messages_exact(v.listened, e9 + (e10 + (e11 + (e12 + tail))));
    assert(whole.skip(c + c8) =~= e9 + (e10 + (e11 + (e12 + tail))));
    lemma_messages_exact(v.signed, e10 + (e11 + (e12 + tail)));
    assert(whole.skip(c + c8 + c9) =~= e10 + (e11 + (e12 + tail)));
    lemma_balances_exact(snaps, e11 + (e12 + tail));
    assert(whole.skip(c + c8 + c9 + c10) =~= e11 + (e12 + tail));
    lemma_daemons_exact(v.daemons, e12 + tail);
    assert(whole.skip(c + c8 + c9 + c10 + c11) =~= e12 + tail);
    lemma_pendings_exact(v.pending, tail);
    // The reader's structural guards hold for what was written.
    let outpairs = snaps.map_values(|b: BalanceSnap| bal_view(b));
    let outdaemons = v.daemons.map_values(|d: DaemonView| scrub_daemon(d));
    assert forall|i: int, j: int|
        0 <= i < j < outpairs.len() implies (#[trigger] outpairs[i]).0 != (
    #[trigger] outpairs[j]).0 by {
        assert(outpairs[i].0 == snaps[i].principal);
        assert(outpairs[j].0 == snaps[j].principal);
    }
    assert forall|k: int| 0 <= k < outdaemons.len() implies (#[trigger] outdaemons[k]).id
        == k by {
        assert(outdaemons[k].id == v.daemons[k].id);
    }
}

/// Whether a state is well formed, checked outright: what `snapshot`
/// asks of its caller, decidable by a host that cannot reason.
pub fn is_well_formed(storage: &Storage) -> (r: bool)
    ensures
        r == storage.wf(),
{
    if storage.chains_storage.chains_metadata.len()
        != storage.chains_storage.evm_chains_storage.0.len() {
        return false;
    }
    let signer_ok = match storage.signer_job.kind_value() {
        JobType::Signer => true,
        _ => false,
    };
    let writer_ok = match storage.writer_job.kind_value() {
        JobType::Writer => true,
        _ => false,
    };
    let checker_ok = match storage.checker_job.kind_value() {
        JobType::Checker => true,
        _ => false,
    };
    if !signer_ok || !writer_ok || !checker_ok {
        return false;
    }
    if !principals_distinct(&storage.balances_storage.0) {
        return false;
    }
    if !daemon_ids_dense(&storage.daemon_storage.daemons) {
        proof {
            if storage.daemon_storage.wf() {
                assert forall|k: int|
                    0 <= k < storage.daemon_storage.daemons@.len() implies (
                #[trigger] storage.daemon_storage.daemons@[k]).id == k by {
                    assert(storage.daemon_storage@[k].id == k);
                }
                assert(false);
            }
        }
        return false;
    }
    proof {
        assert forall|k: int|
            0 <= k < storage.daemon_storage@.len() implies (
        #[trigger] storage.daemon_storage@[k]).id == k by {
            assert(storage.daemon_storage.daemons@[k].id == k);
        }
    }
    let mut i: usize = 0;
    while i < storage.balances_storage.0.len()
        invariant
            i <= storage.balances_storage.0@.len(),
            forall|k: int| 0 <= k < i ==> (#[trigger] storage.balances_storage.0@[k]).1.wf(),
        decreases storage.balances_storage.0@.len() - i,
    {
        let balance = &storage.balances_storage.0[i].1;
        if !entry_list_wf(&balance.chains_data) {
            proof {
                let pairs = balance.chains_data@.map_values(|e: (u64, ChainEntry)| (e.0, e.1@));
                if balance.wf() {
                    assert forall|a: int, b: int|
                        0 <= a < b < pairs.len() implies (#[trigger] pairs[a]).0 != (
                    #[trigger] pairs[b]).0 by {
                        assert(balance.chains_data@[a].0@ != balance.chains_data@[b].0@);
                    }
                    assert forall|k: int|
                        0 <= k < pairs.len() implies crate::types::balances::nonces_distinct(
                        (#[trigger] pairs[k]).1.nonces,
                    ) by {
                        assert(crate::types::balances::nonces_distinct(
                            balance.chains_data@[k].1@.nonces,
                        ));
                    }
                    assert(false);
                }
            }
            return false;
        }
        proof {
            let pairs = balance.chains_data@.map_values(|e: (u64, ChainEntry)| (e.0, e.1@));
            assert forall|a: int, b: int|
                0 <= a < b < balance.chains_data@.len() implies (
            #[trigger] balance.chains_data@[a]).0@ != (#[trigger] balance.chains_data@[b]).0@ by {
                assert(pairs[a].0 != pairs[b].0);
            }
            assert forall|k: int|
                0 <= k < balance.chains_data@.len() implies crate::types::balances::nonces_distinct(
                (#[trigger] balance.chains_data@[k]).1@.nonces,
            ) by {
                assert(crate::types::balances::nonces_distinct(pairs[k].1.nonces));
            }
        }
        i = i + 1;
    }
    true
}

/// Serialise the whole state to one blob. The reading the blob admits
/// is exactly this state with every timer handle forgotten, so a
/// restore brings everything back but the timers, which the host
/// re-arms.
pub fn snapshot(storage: &Storage) -> (r: Vec<u8>)
    requires
        storage.wf(),
    ensures
        sp_storage(r@) == Some((scrub(storage@), r@.len() as int)),
{
    proof {
        assert forall|k: int|
            0 <= k < storage.balances_storage.0@.len() implies (
        #[trigger] storage.balances_storage.0@[k]).1.wf() by {}
    }
    let mut out: Vec<u8> = Vec::new();
    emit_string(&mut out, &storage.key);
    emit_string(&mut out, &storage.public_key);
    emit_meta_slots(&mut out, &storage.chains_storage.chains_metadata);
    emit_evm_slots(&mut out, &storage.chains_storage.evm_chains_storage.0);
    emit_job(&mut out, &storage.signer_job);
    emit_job(&mut out, &storage.writer_job);
    emit_job(&mut out, &storage.checker_job);
    emit_messages(&mut out, &storage.listened_messages);
    emit_messages(&mut out, &storage.signed_messages);
    emit_balances_list(&mut out, &storage.balances_storage.0);
    emit_daemons_list(&mut out, &storage.daemon_storage.daemons);
    emit_pendings(&mut out, &storage.pending_txs_storage.0);
    proof {
        let v = storage@;
        let snaps = storage.balances_storage.0@.map_values(
            |p: (Principal, Balance)| balance_snap(p),
        );
        assert(out@ =~= enc_storage(v, snaps));
        // The structural facts the reader checks hold of a well-formed store.
        assert(v.chains_metadata.len() == v.evm_chains.len());
        assert forall|i: int, j: int|
            0 <= i < j < snaps.len() implies (#[trigger] snaps[i]).principal != (
        #[trigger] snaps[j]).principal by {
            assert(storage.balances_storage.0@[i].0@ != storage.balances_storage.0@[j].0@);
        }
        assert forall|k: int| 0 <= k < v.daemons.len() implies (#[trigger] v.daemons[k]).id
            == k by {}
        lemma_storage_round_trip(v, snaps, Seq::empty());
        assert(enc_storage(v, snaps) + Seq::<u8>::empty() =~= out@);
        let l = storage.balances_storage.0@;
        assert forall|k: int|
            0 <= k < snaps.len() implies bal_view(#[trigger] snaps[k]) == (l[k].0@, l[k].1@) by {
            lemma_pairs_map_is_assoc(l[k].1.chains_data@);
        }
        assert(snaps.map_values(|b: BalanceSnap| bal_view(b)) =~= l.map_values(
            |q: (Principal, Balance)| (q.0@, q.1@),
        ));
        lemma_assoc_as_pairs2(l);
        assert(pairs2_to_map(snaps.map_values(|b: BalanceSnap| bal_view(b)))
            == crate::types::assoc::assoc_map(l));
        assert((StorageView {
            balances: pairs2_to_map(snaps.map_values(|b: BalanceSnap| bal_view(b))),
            ..scrub(v)
        }) == scrub(v));
    }
    out
}

/// Read a snapshot back into a state; the host still has to re-arm
/// the stage jobs and the active daemons, as timer handles are not
/// part of a snapshot. Only well-formed states are accepted, so a
/// restored relay can be handed straight back to the library.
pub fn restore(data: &Vec<u8>) -> (r: Option<Storage>)
    ensures
        (r is Some) <==> (sp_storage(data@) is Some),
        r matches Some(s) ==> s@ == sp_storage(data@)->Some_0.0 && s.wf(),
{
    proof {
        assert(data@.skip(0) =~= data@);
    }
    let (key, p1) = match parse_string(data, 0) {
        Some(p) => p,
        None => {
            return None;
        },
    };
    let (public_key, p2) = match parse_string(data, p1) {
        Some(p) => p,
        None => {
            return None;
        },
    };
    proof {
        assert(data@.skip(0).skip(p1 as int) =~= data@.skip(p1 as int));
        assert(data@.skip(0).skip(p1 + (p2 - p1)) =~= data@.skip(p2 as int));
    }
    let (chains_metadata, p3) = match parse_meta_slots(data, p2) {
        Some(p) => p,
        None => {
            return None;
        },
    };
    proof {
        assert(data@.skip(0).skip(p1 + (p2 - p1) + (p3 - p2)) =~= data@.skip(p3 as int));
    }
    let (evm_chains, p4) = match parse_evm_slots(data, p3) {
        Some(p) => p,
        None => {
            return None;
        },
    };
    proof {
        assert(data@.skip(0).skip(p1 + (p2 - p1) + (p3 - p2) + (p4 - p3)) =~= data@.skip(
            p4 as int,
        ));
    }
    let (signer_job, p5) = match parse_job(data, p4) {
        Some(p) => p,
        None => {
            return None;
        },
    };
    proof {
        assert(data@.skip(0).skip(p1 + (p2 - p1) + (p3 - p2) + (p4 - p3) + (p5 - p4)) =~= data@.skip(
            p5 as int,
        ));
    }
    let (writer_job, p6) = match parse_job(data, p5) {
        Some(p) => p,
        None => {
            return None;
        },
    };
    proof {
        assert(data@.skip(0).skip(p1 + (p2 - p1) + (p3 - p2) + (p4 - p3) + (p5 - p4) + (p6 - p5))
            =~= data@.skip(p6 as int));
    }
    let (checker_job, p7) = match parse_job(data, p6) {
        Some(p) => p,
        None => {
            return None;
        },
    };
    let ghost head_len = p7 as int;
    proof {
        assert(data@.skip(0).skip(head_len) =~= data@.skip(p7 as int));
    }
    let (listened_messages, p8) = match parse_messages(data, p7) {
        Some(p) => p,
        None => {
            return None;
        },
    };
    proof {
        assert(data@.skip(0).skip(head_len + (p8 - p7)) =~= data@.skip(p8 as int));
    }
    let (signed_messages, p9) = match parse_messages(data, p8) {
        Some(p) => p,
        None => {
            return None;
        },
    };
    proof {
        assert(data@.skip(0).skip(head_len + (p8 - p7) + (p9 - p8)) =~= data@.skip(p9 as int));
    }
    let (balances, p10) = match parse_balances_list(data, p9) {
        Some(p) => p,
        None => {
            return None;
        },
    };
    proof {
        assert(data@.skip(0).skip(head_len + (p8 - p7) + (p9 - p8) + (p10 - p9)) =~= data@.skip(
            p10 as int,
        ));
    }
    let (daemons, p11) = match parse_daemons_list(data, p10) {
        Some(p) => p,
        None => {
            return None;
        },
    };
    proof {
        assert(data@.skip(0).skip(head_len + (p8 - p7) + (p9 - p8) + (p10 - p9) + (p11 - p10))
            =~= data@.skip(p11 as int));
    }
    let (pending, p12) = match parse_pendings(data, p11) {
        Some(p) => p,
        None => {
            return None;
        },
    };
    if chains_metadata.len() != evm_chains.len() {
        return None;
    }
    let signer_ok = match signer_job.kind_value() {
        JobType::Signer => true,
        _ => false,
    };
    let writer_ok = match writer_job.kind_value() {
        JobType::Writer => true,
        _ => false,
    };
    let checker_ok = match checker_job.kind_value() {
        JobType::Checker => true,
        _ => false,
    };
    if !signer_ok || !writer_ok || !checker_ok {
        return None;
    }
    let ghost hv = (
        key@,
        public_key@,
        crate::types::slot_views(chains_metadata@),
        crate::types::slot_views(evm_chains@),
        signer_job@,
        writer_job@,
        checker_job@,
    );
    let ghost pv = balances@.map_values(|q: (Principal, Balance)| (q.0@, q.1@));
    let ghost dv = daemons@.map_values(|d: Daemon| d@);
    if !principals_distinct(&balances) {
        proof {
            if parsed_guards(hv, pv, dv) {
                assert forall|a: int, b: int|
                    0 <= a < b < balances@.len() implies (#[trigger] balances@[a]).0@ != (
                #[trigger] balances@[b]).0@ by {
                    assert(pv[a].0 != pv[b].0);
                }
                assert(false);
            }
        }
        return None;
    }
    if !daemon_ids_dense(&daemons) {
        proof {
            if parsed_guards(hv, pv, dv) {
                assert forall|k: int|
                    0 <= k < daemons@.len() implies (#[trigger] daemons@[k]).id == k by {
                    assert(dv[k].id == k);
                }
                assert(false);
            }
        }
        return None;
    }
    proof {
        lemma_assoc_as_pairs2(balances@);
    }
    let storage = Storage {
        key,
        public_key,
        chains_storage: crate::types::chains::ChainsStorage {
            chains_metadata,
            evm_chains_storage: crate::types::evm_chains::EvmChainsStorage(evm_chains),
        },
        signer_job,
        writer_job,
        checker_job,
        listened_messages,
        signed_messages,
        balances_storage: crate::types::balances::BalancesStorage(balances),
        daemon_storage: crate::types::daemons::DaemonsStorage { daemons },
        pending_txs_storage: crate::types::pending_tx::PendingTransactionsStorage(pending),
    };
    proof {
        assert(storage@ == sp_storage(data@)->Some_0.0);
        assert(storage.wf());
    }
    Some(storage)
}

/// Whether every principal in a read ledger appears once.
fn principals_distinct(v: &Vec<(Principal, Balance)>) -> (r: bool)
    ensures
        r == (forall|i: int, j: int|
            0 <= i < j < v@.len() ==> (#[trigger] v@[i]).0@ != (#[trigger] v@[j]).0@),
{
    let mut i: usize = 0;
    while i < v.len()
        invariant
            i <= v@.len(),
            forall|a: int, b: int|
                0 <= a < b < i ==> (#[trigger] v@[a]).0@ != (#[trigger] v@[b]).0@,
        decreases v@.len() - i,
    {
        let mut j: usize = 0;
        while j < i
            invariant
                j <= i < v@.len(),
                forall|a: int| 0 <= a < j ==> (#[trigger] v@[a]).0@ != v@[i as int].0@,
            decreases i - j,
        {
            if &v[j].0 == &v[i].0 {
                return false;
            }
            j = j + 1;
        }
        i = i + 1;
    }
    true
}

/// Whether every read daemon sits in the slot its id names.
fn daemon_ids_dense(v: &Vec<Daemon>) -> (r: bool)
    ensures
        r == (forall|k: int| 0 <= k < v@.len() ==> (#[trigger] v@[k]).id == k),
{
    let mut i: usize = 0;
    while i < v.len()
        invariant
            i <= v@.len(),
            forall|k: int| 0 <= k < i ==> (#[trigger] v@[k]).id == k,
        decreases v@.len() - i,
    {
        if v[i].id != i as u64 {
            return false;
        }
        i = i + 1;
    }
    true
}

} // verus!
