//! The byte encoding of a ledger.
//!
//! A ledger is written as Ronaldo's log followed by Messi's. A log is its
//! number of entries as four little-endian bytes followed by the entries in
//! order; an entry is the length of the identity's UTF-8 encoding as four
//! little-endian bytes followed by those bytes.
use crate::model::{identities, VoteLog};
use vstd::bytes::{spec_u32_from_le_bytes, spec_u32_to_le_bytes, u32_from_le_bytes, u32_to_le_bytes};
use vstd::prelude::*;
use vstd::utf8::{decode_utf8, encode_utf8, valid_utf8};

verus! {

/// Whether an identity can be written: its UTF-8 length must fit the
/// four-byte length prefix.
pub open spec fn identity_fits(who: Seq<char>) -> bool {
    encode_utf8(who).len() <= u32::MAX
}

/// The bytes of one entry.
pub open spec fn identity_bytes(who: Seq<char>) -> Seq<u8> {
    spec_u32_to_le_bytes(encode_utf8(who).len() as u32) + encode_utf8(who)
}

/// The bytes of the entries of a log, without the count in front.
pub open spec fn entries_bytes(log: Seq<Seq<char>>) -> Seq<u8>
    decreases log.len(),
{
    if log.len() == 0 {
        Seq::empty()
    } else {
        identity_bytes(log.first()) + entries_bytes(log.drop_first())
    }
}

/// Whether a log can be written: its length must fit the four-byte count and
/// every entry must fit.
pub open spec fn log_fits(log: Seq<Seq<char>>) -> bool {
    &&& log.len() <= u32::MAX
    &&& forall|i: int| 0 <= i < log.len() ==> identity_fits(#[trigger] log[i])
}

/// The bytes of a log.
pub open spec fn log_bytes(log: Seq<Seq<char>>) -> Seq<u8> {
    spec_u32_to_le_bytes(log.len() as u32) + entries_bytes(log)
}

/// Whether a ledger can be written.
pub open spec fn ledger_fits(ledger: VoteLog) -> bool {
    log_fits(ledger.ronaldo) && log_fits(ledger.messi)
}

/// The bytes of a ledger.
pub open spec fn ledger_bytes(ledger: VoteLog) -> Seq<u8> {
    log_bytes(ledger.ronaldo) + log_bytes(ledger.messi)
}

/// Reads one entry from the front of `buf`: the identity and the bytes that
/// follow it, or `None` where `buf` is too short for the length prefix or for
/// the length it announces, or where the payload is not UTF-8.
pub open spec fn parse_identity(buf: Seq<u8>) -> Option<(Seq<char>, Seq<u8>)> {
    if buf.len() < 4 {
        None
    } else {
        let end = 4 + spec_u32_from_le_bytes(buf.subrange(0, 4));
        if buf.len() < end || !valid_utf8(buf.subrange(4, end)) {
            None
        } else {
            Some((decode_utf8(buf.subrange(4, end)), buf.subrange(end, buf.len() as int)))
        }
    }
}

/// Puts the entries already read in front of what the rest of a parse gives.
pub open spec fn read_so_far(
    head: Seq<Seq<char>>,
    tail: Option<(Seq<Seq<char>>, Seq<u8>)>,
) -> Option<(Seq<Seq<char>>, Seq<u8>)> {
    match tail {
        Some((log, rest)) => Some((head + log, rest)),
        None => None,
    }
}

/// Reads `count` entries from the front of `buf`.
pub open spec fn parse_entries(buf: Seq<u8>, count: nat) -> Option<(Seq<Seq<char>>, Seq<u8>)>
    decreases count,
{
    if count == 0 {
        Some((Seq::empty(), buf))
    } else {
        match parse_identity(buf) {
            Some((who, rest)) => read_so_far(seq![who], parse_entries(rest, (count - 1) as nat)),
            None => None,
        }
    }
}

/// Reads one log from the front of `buf`.
pub open spec fn parse_log(buf: Seq<u8>) -> Option<(Seq<Seq<char>>, Seq<u8>)> {
    if buf.len() < 4 {
        None
    } else {
        parse_entries(
            buf.subrange(4, buf.len() as int),
            spec_u32_from_le_bytes(buf.subrange(0, 4)) as nat,
        )
    }
}

/// Reads a ledger from `buf`, which must hold two logs and nothing more.
pub open spec fn parse_ledger(buf: Seq<u8>) -> Option<VoteLog> {
    match parse_log(buf) {
        Some((ronaldo, rest)) => match parse_log(rest) {
            Some((messi, left)) => if left.len() == 0 {
                Some(VoteLog { ronaldo, messi })
            } else {
                None
            },
            None => None,
        },
        None => None,
    }
}

/// Serialises one identity with borsh's `BorshSerialize::try_to_vec` for
/// `String`. Borsh writes the byte length as a little-endian `u32` and then
/// the string's bytes, and refuses a string whose length does not fit a
/// `u32`; this contract claims exactly that.
#[verifier::external_body]
pub(crate) fn borsh_identity(who: &String) -> (r: Option<Vec<u8>>)
    ensures
        r is Some <==> identity_fits(who@),
        r matches Some(bytes) ==> bytes@ == identity_bytes(who@),
{
    near_sdk::borsh::BorshSerialize::try_to_vec(who).ok()
}

/// Reads one identity with borsh's `BorshDeserialize::deserialize` for
/// `String`, which consumes a little-endian `u32` length and that many bytes
/// from the front of the buffer and fails where the buffer is too short or the
/// bytes are not UTF-8. This contract claims that the call succeeds exactly
/// where `parse_identity` does, with the same identity and the same remainder.
#[verifier::external_body]
pub(crate) fn borsh_take_identity<'a>(buf: &'a [u8]) -> (r: Option<(String, &'a [u8])>)
    ensures
        match r {
            Some((who, rest)) => parse_identity(buf@) == Some((who@, rest@)),
            None => parse_identity(buf@) is None,
        },
{
    let mut rest = buf;
    let read: Result<String, _> = near_sdk::borsh::BorshDeserialize::deserialize(&mut rest);
    match read {
        Ok(who) => Some((who, rest)),
        Err(_) => None,
    }
}

/// Appends the bytes of `log` to `out`. Returns `false`, with `out` holding
/// unspecified bytes after its old content, where the log cannot be written.
pub fn write_log(log: &Vec<String>, out: &mut Vec<u8>) -> (ok: bool)
    ensures
        ok <==> log_fits(identities(log@)),
        ok ==> final(out)@ == old(out)@ + log_bytes(identities(log@)),
        !ok ==> old(out)@.is_prefix_of(final(out)@),
{
    let ghost ids = identities(log@);
    if log.len() > 0xffff_ffff {
        return false;
    }
    let mut count = u32_to_le_bytes(log.len() as u32);
    out.append(&mut count);
    let mut i: usize = 0;
    while i < log.len()
        invariant
            i <= log.len(),
            ids == identities(log@),
            log.len() <= u32::MAX,
            forall|j: int| 0 <= j < i ==> identity_fits(#[trigger] ids[j]),
            out@ == old(out)@ + spec_u32_to_le_bytes(log.len() as u32) + entries_bytes(
                ids.take(i as int),
            ),
        decreases log.len() - i,
    {
        match borsh_identity(&log[i]) {
            Some(mut bytes) => {
                proof {
                    lemma_entries_bytes_push(ids.take(i as int), ids[i as int]);
                    assert(ids.take(i as int).push(ids[i as int]) =~= ids.take(i + 1));
                }
                out.append(&mut bytes);
            },
            None => {
                assert(!identity_fits(ids[i as int]));
                return false;
            },
        }
        i += 1;
    }
    assert(ids.take(i as int) =~= ids);
    true
}

/// Reads one log from the front of `buf` and returns it with the bytes that
/// follow it, or `None` where `buf` does not start with a well-formed log.
pub fn read_log<'a>(buf: &'a [u8]) -> (r: Option<(Vec<String>, &'a [u8])>)
    ensures
        match r {
            Some((log, rest)) => parse_log(buf@) == Some((identities(log@), rest@)),
            None => parse_log(buf@) is None,
        },
{
    if buf.len() < 4 {
        return None;
    }
    let count = u32_from_le_bytes(&buf[0..4]);
    let mut cur: &[u8] = &buf[4..buf.len()];
    let mut log: Vec<String> = Vec::new();
    let mut i: u32 = 0;
    proof {
        if let Some((all, _)) = parse_entries(cur@, count as nat) {
            assert(identities(log@) + all =~= all);
        }
    }
    while i < count
        invariant
            i <= count,
            buf@.len() >= 4,
            count == spec_u32_from_le_bytes(buf@.subrange(0, 4)),
            parse_log(buf@) == read_so_far(
                identities(log@),
                parse_entries(cur@, (count - i) as nat),
            ),
        decreases count - i,
    {
        let ghost before = identities(log@);
        let ghost left = (count - i) as nat;
        match borsh_take_identity(cur) {
            Some((who, rest)) => {
                proof {
                    let tail = parse_entries(rest@, (left - 1) as nat);
                    assert(parse_entries(cur@, left) == read_so_far(seq![who@], tail));
                    assert(identities(log@.push(who)) =~= before.push(who@));
                    match tail {
                        Some((more, after)) => {
                            assert(before + (seq![who@] + more) =~= before.push(who@) + more);
                        },
                        None => {},
                    }
                }
                log.push(who);
                cur = rest;
            },
            None => {
                assert(parse_entries(cur@, left) is None);
                return None;
            },
        }
        i += 1;
    }
    assert(identities(log@) + Seq::<Seq<char>>::empty() =~= identities(log@));
    Some((log, cur))
}

/// Writing one more entry appends its bytes.
pub proof fn lemma_entries_bytes_push(log: Seq<Seq<char>>, who: Seq<char>)
    ensures
        entries_bytes(log.push(who)) == entries_bytes(log) + identity_bytes(who),
    decreases log.len(),
{
    if log.len() == 0 {
        assert(log.push(who).drop_first() =~= log);
        assert(entries_bytes(log.push(who)) =~= identity_bytes(who) + entries_bytes(log));
    } else {
        lemma_entries_bytes_push(log.drop_first(), who);
        assert(log.push(who).drop_first() =~= log.drop_first().push(who));
        assert(entries_bytes(log.push(who)) =~= entries_bytes(log) + identity_bytes(who));
    }
}

/// An entry that was written is read back, and what followed it is left over.
pub proof fn lemma_parse_identity_bytes(who: Seq<char>, rest: Seq<u8>)
    requires
        identity_fits(who),
    ensures
        parse_identity(identity_bytes(who) + rest) == Some((who, rest)),
{
    broadcast use vstd::utf8::encode_utf8_valid_utf8, vstd::utf8::encode_utf8_decode_utf8;

    vstd::bytes::lemma_auto_spec_u32_to_from_le_bytes();
    let payload = encode_utf8(who);
    let prefix = spec_u32_to_le_bytes(payload.len() as u32);
    let buf = identity_bytes(who) + rest;
    let end = 4 + payload.len() as int;
    assert(buf.subrange(0, 4) =~= prefix);
    assert(buf.subrange(4, end) =~= payload);
    assert(buf.subrange(end, buf.len() as int) =~= rest);
}

/// Entries that were written are read back in order.
pub proof fn lemma_parse_entries_bytes(log: Seq<Seq<char>>, rest: Seq<u8>)
    requires
        forall|i: int| 0 <= i < log.len() ==> identity_fits(#[trigger] log[i]),
    ensures
        parse_entries(entries_bytes(log) + rest, log.len()) == Some((log, rest)),
    decreases log.len(),
{
    if log.len() == 0 {
        assert(entries_bytes(log) + rest =~= rest);
        assert(log =~= Seq::empty());
    } else {
        let tail = log.drop_first();
        let after = entries_bytes(tail) + rest;
        assert(entries_bytes(log) + rest =~= identity_bytes(log.first()) + after);
        lemma_parse_identity_bytes(log.first(), after);
        assert forall|i: int| 0 <= i < tail.len() implies identity_fits(#[trigger] tail[i]) by {
            assert(tail[i] == log[i + 1]);
        }
        lemma_parse_entries_bytes(tail, rest);
        assert(seq![log.first()] + tail =~= log);
    }
}

/// A log that was written is read back, and what followed it is left over.
pub proof fn lemma_parse_log_bytes(log: Seq<Seq<char>>, rest: Seq<u8>)
    requires
        log_fits(log),
    ensures
        parse_log(log_bytes(log) + rest) == Some((log, rest)),
{
    vstd::bytes::lemma_auto_spec_u32_to_from_le_bytes();
    let buf = log_bytes(log) + rest;
    assert(buf.subrange(0, 4) =~= spec_u32_to_le_bytes(log.len() as u32));
    assert(buf.subrange(4, buf.len() as int) =~= entries_bytes(log) + rest);
    lemma_parse_entries_bytes(log, rest);
}

/// Reading back the bytes of a ledger gives that ledger: decoding inverts
/// encoding on every ledger that can be written.
pub proof fn lemma_decode_encode(ledger: VoteLog)
    requires
        ledger_fits(ledger),
    ensures
        parse_ledger(ledger_bytes(ledger)) == Some(ledger),
{
    lemma_parse_log_bytes(ledger.ronaldo, log_bytes(ledger.messi));
    lemma_parse_log_bytes(ledger.messi, Seq::empty());
    assert(log_bytes(ledger.messi) + Seq::<u8>::empty() =~= log_bytes(ledger.messi));
}

/// An entry that was read is the one whose bytes stand at the front.
pub proof fn lemma_identity_bytes_parsed(buf: Seq<u8>, who: Seq<char>, rest: Seq<u8>)
    requires
        parse_identity(buf) == Some((who, rest)),
    ensures
        identity_fits(who),
        buf == identity_bytes(who) + rest,
{
    broadcast use vstd::utf8::decode_utf8_encode_utf8;

    vstd::bytes::lemma_auto_spec_u32_to_from_le_bytes();
    let end = 4 + spec_u32_from_le_bytes(buf.subrange(0, 4));
    let payload = buf.subrange(4, end);
    assert(encode_utf8(decode_utf8(payload)) == payload);
    assert(buf =~= buf.subrange(0, 4) + payload + buf.subrange(end, buf.len() as int));
}

/// Entries that were read are those whose bytes stand at the front.
pub proof fn lemma_entries_bytes_parsed(
    buf: Seq<u8>,
    count: nat,
    log: Seq<Seq<char>>,
    rest: Seq<u8>,
)
    requires
        parse_entries(buf, count) == Some((log, rest)),
    ensures
        log.len() == count,
        forall|i: int| 0 <= i < log.len() ==> identity_fits(#[trigger] log[i]),
        buf == entries_bytes(log) + rest,
    decreases count,
{
    if count == 0 {
        assert(buf =~= entries_bytes(log) + buf);
    } else {
        let (who, after) = parse_identity(buf).unwrap();
        lemma_identity_bytes_parsed(buf, who, after);
        let (tail, left) = parse_entries(after, (count - 1) as nat).unwrap();
        lemma_entries_bytes_parsed(after, (count - 1) as nat, tail, left);
        assert(log == seq![who] + tail);
        assert(log.first() == who);
        assert(log.drop_first() =~= tail);
        assert(buf =~= entries_bytes(log) + rest);
        assert forall|i: int| 0 <= i < log.len() implies identity_fits(#[trigger] log[i]) by {
            if i > 0 {
                assert(log[i] == tail[i - 1]);
            }
        }
    }
}

/// A log that was read is the one whose bytes stand at the front.
pub proof fn lemma_log_bytes_parsed(buf: Seq<u8>, log: Seq<Seq<char>>, rest: Seq<u8>)
    requires
        parse_log(buf) == Some((log, rest)),
    ensures
        log_fits(log),
        buf == log_bytes(log) + rest,
{
    vstd::bytes::lemma_auto_spec_u32_to_from_le_bytes();
    let count = spec_u32_from_le_bytes(buf.subrange(0, 4));
    let body = buf.subrange(4, buf.len() as int);
    lemma_entries_bytes_parsed(body, count as nat, log, rest);
    assert(buf =~= buf.subrange(0, 4) + body);
    assert(buf =~= log_bytes(log) + rest);
}

/// Only the bytes of a ledger read back as that ledger: whatever decodes can
/// be written, and writing it gives the buffer that was read. So two
/// different buffers never decode to the same ledger.
pub proof fn lemma_encode_decode(buf: Seq<u8>, ledger: VoteLog)
    requires
        parse_ledger(buf) == Some(ledger),
    ensures
        ledger_fits(ledger),
        ledger_bytes(ledger) == buf,
{
    let (ronaldo, rest) = parse_log(buf).unwrap();
    lemma_log_bytes_parsed(buf, ronaldo, rest);
    let (messi, left) = parse_log(rest).unwrap();
    lemma_log_bytes_parsed(rest, messi, left);
    assert(left =~= Seq::empty());
    assert(rest =~= log_bytes(messi));
}

} // verus!
