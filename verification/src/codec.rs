//! Byte codec for everything the store persists or ships: log keys as
//! 8-byte big-endian indices (so lexicographic order on keys is numeric
//! order on indices), and the length-prefixed records a snapshot payload is
//! made of. Every decoder is proved to invert its encoder.

use vstd::prelude::*;
use vstd::utf8::encode_utf8;
use vstd::utf8::decode_utf8;
use vstd::utf8::valid_utf8;
use crate::types::LogId;

verus! {

/// `pat` occurs in `b` at offset `pos`.
pub open spec fn sub_at(b: Seq<u8>, pos: int, pat: Seq<u8>) -> bool {
    &&& 0 <= pos
    &&& pos + pat.len() <= b.len()
    &&& b.subrange(pos, pos + pat.len() as int) == pat
}

/// The 8 bytes of `x`, most significant first.
pub open spec fn u64_be_bytes(x: u64) -> Seq<u8> {
    seq![
        ((x >> 56) & 0xff) as u8,
        ((x >> 48) & 0xff) as u8,
        ((x >> 40) & 0xff) as u8,
        ((x >> 32) & 0xff) as u8,
        ((x >> 24) & 0xff) as u8,
        ((x >> 16) & 0xff) as u8,
        ((x >> 8) & 0xff) as u8,
        (x & 0xff) as u8,
    ]
}

/// The value read from 8 bytes, most significant first.
pub open spec fn u64_of_be(s: Seq<u8>) -> u64
    recommends
        s.len() >= 8,
{
    (((s[0] as u64) << 56) | ((s[1] as u64) << 48) | ((s[2] as u64) << 40) | ((s[3] as u64) << 32)
        | ((s[4] as u64) << 24) | ((s[5] as u64) << 16) | ((s[6] as u64) << 8) | (s[7] as u64))
}

/// Reading back the 8 big-endian bytes of `x` gives `x`.
pub proof fn lemma_u64_be_round_trip(x: u64)
    ensures
        u64_of_be(u64_be_bytes(x)) == x,
{
    assert((((((x >> 56) & 0xff) as u8 as u64) << 56) | ((((x >> 48) & 0xff) as u8 as u64) << 48)
        | ((((x >> 40) & 0xff) as u8 as u64) << 40) | ((((x >> 32) & 0xff) as u8 as u64) << 32) | (
    (((x >> 24) & 0xff) as u8 as u64) << 24) | ((((x >> 16) & 0xff) as u8 as u64) << 16) | ((((x
        >> 8) & 0xff) as u8 as u64) << 8) | ((x & 0xff) as u8 as u64)) == x) by (bit_vector);
}

/// Converts a log index to the 8-byte big-endian key it is stored under;
/// big-endian makes lexicographic key order equal numeric index order.
pub fn id_to_bin(id: u64) -> (r: Vec<u8>)
    ensures
        r@ == u64_be_bytes(id),
{
    proof {
        assert(((id >> 56) & 0xff) < 256 && ((id >> 48) & 0xff) < 256 && ((id >> 40) & 0xff) < 256
            && ((id >> 32) & 0xff) < 256 && ((id >> 24) & 0xff) < 256 && ((id >> 16) & 0xff) < 256
            && ((id >> 8) & 0xff) < 256 && (id & 0xff) < 256) by (bit_vector);
    }
    let mut buf: Vec<u8> = Vec::with_capacity(8);
    buf.push(((id >> 56) & 0xff) as u8);
    buf.push(((id >> 48) & 0xff) as u8);
    buf.push(((id >> 40) & 0xff) as u8);
    buf.push(((id >> 32) & 0xff) as u8);
    buf.push(((id >> 24) & 0xff) as u8);
    buf.push(((id >> 16) & 0xff) as u8);
    buf.push(((id >> 8) & 0xff) as u8);
    buf.push((id & 0xff) as u8);
    proof {
        assert(buf@ =~= u64_be_bytes(id));
    }
    buf
}

/// Reads a log index back from the first 8 bytes of its stored key.
pub fn bin_to_id(buf: &[u8]) -> (r: u64)
    requires
        buf@.len() >= 8,
    ensures
        r == u64_of_be(buf@.take(8)),
{
    let r = (((buf[0] as u64) << 56) | ((buf[1] as u64) << 48) | ((buf[2] as u64) << 40) | ((
    buf[3] as u64) << 32) | ((buf[4] as u64) << 24) | ((buf[5] as u64) << 16) | ((buf[6] as u64)
        << 8) | (buf[7] as u64));
    proof {
        assert forall|k: int| 0 <= k < 8 implies buf@.take(8)[k] == buf@[k] by {}
    }
    r
}

/// Appends the big-endian bytes of `x`.
pub fn write_u64(out: &mut Vec<u8>, x: u64)
    ensures
        final(out)@ == old(out)@ + u64_be_bytes(x),
{
    let mut b = id_to_bin(x);
    out.append(&mut b);
}

/// Decoding a `u64`: the next 8 bytes, big-endian.
pub open spec fn dec_u64(b: Seq<u8>, pos: int) -> Option<(u64, int)> {
    if 0 <= pos && pos + 8 <= b.len() {
        Option::Some((u64_of_be(b.subrange(pos, pos + 8)), pos + 8))
    } else {
        Option::None
    }
}

/// Decoding inverts encoding for a `u64`.
pub proof fn lemma_dec_enc_u64(b: Seq<u8>, pos: int, x: u64)
    requires
        sub_at(b, pos, u64_be_bytes(x)),
    ensures
        dec_u64(b, pos) == Option::Some((x, pos + 8)),
{
    assert(b.subrange(pos, pos + 8) =~= u64_be_bytes(x));
    lemma_u64_be_round_trip(x);
}

/// Reads a `u64` at `pos`, per [`dec_u64`].
pub fn read_u64(buf: &Vec<u8>, pos: usize) -> (r: Option<(u64, usize)>)
    requires
        pos <= buf@.len(),
    ensures
        r is Some <==> dec_u64(buf@, pos as int) is Some,
        r matches Option::Some(p) ==> dec_u64(buf@, pos as int) == Option::Some(
            (p.0, p.1 as int),
        ),
{
    if buf.len() - pos >= 8 {
        let v = (((buf[pos] as u64) << 56) | ((buf[pos + 1] as u64) << 48) | ((buf[pos
            + 2] as u64) << 40) | ((buf[pos + 3] as u64) << 32) | ((buf[pos + 4] as u64) << 24) | (
        (buf[pos + 5] as u64) << 16) | ((buf[pos + 6] as u64) << 8) | (buf[pos + 7] as u64));
        proof {
            let s = buf@.subrange(pos as int, pos + 8);
            assert forall|k: int| 0 <= k < 8 implies s[k] == buf@[pos + k] by {}
        }
        Option::Some((v, pos + 8))
    } else {
        Option::None
    }
}

/// Encoding of a character sequence: byte length, then UTF-8 bytes.
pub open spec fn enc_chars(cs: Seq<char>) -> Seq<u8> {
    u64_be_bytes(encode_utf8(cs).len() as u64) + encode_utf8(cs)
}

/// Decoding of a character sequence, per [`enc_chars`].
pub open spec fn dec_chars(b: Seq<u8>, pos: int) -> Option<(Seq<char>, int)> {
    match dec_u64(b, pos) {
        Option::None => Option::None,
        Option::Some((n, p)) => if p + n <= b.len() && valid_utf8(b.subrange(p, p + n)) {
            Option::Some((decode_utf8(b.subrange(p, p + n)), p + n))
        } else {
            Option::None
        },
    }
}

/// Decoding inverts encoding for a character sequence.
pub proof fn lemma_dec_enc_chars(b: Seq<u8>, pos: int, cs: Seq<char>)
    requires
        sub_at(b, pos, enc_chars(cs)),
        encode_utf8(cs).len() < 0x1_0000_0000_0000_0000,
    ensures
        dec_chars(b, pos) == Option::Some((cs, pos + enc_chars(cs).len())),
{
    let e = enc_chars(cs);
    let w = encode_utf8(cs);
    let n = w.len() as u64;
    assert(b.subrange(pos, pos + 8) =~= u64_be_bytes(n)) by {
        assert(b.subrange(pos, pos + e.len() as int) == e);
        assert forall|k: int| 0 <= k < 8 implies b.subrange(pos, pos + 8)[k] == u64_be_bytes(n)[k]
        by {
            assert(b.subrange(pos, pos + e.len() as int)[k] == e[k]);
        }
    }
    lemma_dec_enc_u64(b, pos, n);
    assert(b.subrange(pos + 8, pos + 8 + n) =~= w) by {
        assert(b.subrange(pos, pos + e.len() as int) == e);
        assert forall|k: int| 0 <= k < w.len() implies b.subrange(pos + 8, pos + 8 + n)[k] == w[k]
        by {
            assert(b.subrange(pos, pos + e.len() as int)[8 + k] == e[8 + k]);
        }
    }
    vstd::utf8::encode_utf8_valid_utf8(cs);
    vstd::utf8::encode_utf8_decode_utf8(cs);
}

/// Relies on `String::from_utf8`: it succeeds exactly on valid UTF-8, and
/// the returned string's UTF-8 bytes are the input bytes.
#[verifier::external_body]
fn string_from_utf8(bytes: Vec<u8>) -> (r: Option<String>)
    ensures
        r is Some <==> valid_utf8(bytes@),
        r matches Option::Some(s) ==> encode_utf8(s@) == bytes@,
{
    match String::from_utf8(bytes) {
        Ok(s) => Option::Some(s),
        Err(_) => Option::None,
    }
}

/// Appends the encoding of a string, per [`enc_chars`].
pub fn write_chars(out: &mut Vec<u8>, s: &String)
    ensures
        final(out)@ == old(out)@ + enc_chars(s@),
        encode_utf8(s@).len() < 0x1_0000_0000_0000_0000,
{
    let mut bytes = s.as_str().as_bytes_vec();
    write_u64(out, bytes.len() as u64);
    out.append(&mut bytes);
}

/// Reads a string at `pos`, per [`dec_chars`].
pub fn read_chars(buf: &Vec<u8>, pos: usize) -> (r: Option<(String, usize)>)
    requires
        pos <= buf@.len(),
    ensures
        r is Some <==> dec_chars(buf@, pos as int) is Some,
        r matches Option::Some(p) ==> {
            &&& dec_chars(buf@, pos as int) == Option::Some((p.0@, p.1 as int))
            &&& pos < p.1 <= buf@.len()
        },
{
    let (n, p) = match read_u64(buf, pos) {
        Option::None => {
            return Option::None;
        },
        Option::Some(x) => x,
    };
    if n > (buf.len() - p) as u64 {
        return Option::None;
    }
    let nn = n as usize;
    let mut bytes: Vec<u8> = Vec::new();
    let mut i: usize = 0;
    while i < nn
        invariant
            p + nn <= buf@.len(),
            buf@.len() <= usize::MAX,
            i <= nn,
            bytes@ == buf@.subrange(p as int, p + i),
        decreases nn - i,
    {
        bytes.push(buf[p + i]);
        proof {
            assert(bytes@ =~= buf@.subrange(p as int, p + i + 1));
        }
        i += 1;
    }
    match string_from_utf8(bytes) {
        Option::None => Option::None,
        Option::Some(s) => {
            proof {
                vstd::utf8::encode_utf8_decode_utf8(s@);
            }
            Option::Some((s, p + nn))
        },
    }
}

/// Encoding of a log id: term, then index.
pub open spec fn enc_log_id(l: LogId) -> Seq<u8> {
    u64_be_bytes(l.term) + u64_be_bytes(l.index)
}

/// Encoding of an optional log id: a presence tag, then the log id.
pub open spec fn enc_opt_log_id(o: Option<LogId>) -> Seq<u8> {
    match o {
        Option::None => seq![0u8],
        Option::Some(l) => seq![1u8] + enc_log_id(l),
    }
}

/// Decoding of an optional log id, per [`enc_opt_log_id`].
pub open spec fn dec_opt_log_id(b: Seq<u8>, pos: int) -> Option<(Option<LogId>, int)> {
    if 0 <= pos && pos + 1 <= b.len() {
        if b[pos] == 0u8 {
            Option::Some((Option::None, pos + 1))
        } else if b[pos] == 1u8 {
            match dec_u64(b, pos + 1) {
                Option::None => Option::None,
                Option::Some((term, p)) => match dec_u64(b, p) {
                    Option::None => Option::None,
                    Option::Some((index, q)) => Option::Some(
                        (Option::Some(LogId { term, index }), q),
                    ),
                },
            }
        } else {
            Option::None
        }
    } else {
        Option::None
    }
}

/// Decoding inverts encoding for an optional log id.
pub proof fn lemma_dec_enc_opt_log_id(b: Seq<u8>, pos: int, o: Option<LogId>)
    requires
        sub_at(b, pos, enc_opt_log_id(o)),
    ensures
        dec_opt_log_id(b, pos) == Option::Some((o, pos + enc_opt_log_id(o).len())),
{
    let e = enc_opt_log_id(o);
    assert(b.subrange(pos, pos + e.len() as int) == e);
    assert(b[pos] == e[0]) by {
        assert(b.subrange(pos, pos + e.len() as int)[0] == e[0]);
    }
    match o {
        Option::None => {},
        Option::Some(l) => {
            assert(sub_at(b, pos + 1, u64_be_bytes(l.term))) by {
                assert forall|k: int| 0 <= k < 8 implies b.subrange(pos + 1, pos + 9)[k]
                    == u64_be_bytes(l.term)[k] by {
                    assert(b.subrange(pos, pos + e.len() as int)[1 + k] == e[1 + k]);
                }
                assert(b.subrange(pos + 1, pos + 9) =~= u64_be_bytes(l.term));
            }
            assert(sub_at(b, pos + 9, u64_be_bytes(l.index))) by {
                assert forall|k: int| 0 <= k < 8 implies b.subrange(pos + 9, pos + 17)[k]
                    == u64_be_bytes(l.index)[k] by {
                    assert(b.subrange(pos, pos + e.len() as int)[9 + k] == e[9 + k]);
                }
                assert(b.subrange(pos + 9, pos + 17) =~= u64_be_bytes(l.index));
            }
            lemma_dec_enc_u64(b, pos + 1, l.term);
            lemma_dec_enc_u64(b, pos + 9, l.index);
        },
    }
}

/// Appends the encoding of an optional log id, per [`enc_opt_log_id`].
pub fn write_opt_log_id(out: &mut Vec<u8>, o: &Option<LogId>)
    ensures
        final(out)@ == old(out)@ + enc_opt_log_id(*o),
{
    match o {
        Option::None => {
            out.push(0u8);
            proof {
                assert(out@ =~= old(out)@ + enc_opt_log_id(Option::<LogId>::None));
            }
        },
        Option::Some(l) => {
            out.push(1u8);
            write_u64(out, l.term);
            write_u64(out, l.index);
            proof {
                assert(out@ =~= old(out)@ + enc_opt_log_id(Option::Some(*l)));
            }
        },
    }
}

/// Reads an optional log id at `pos`, per [`dec_opt_log_id`].
pub fn read_opt_log_id(buf: &Vec<u8>, pos: usize) -> (r: Option<(Option<LogId>, usize)>)
    requires
        pos <= buf@.len(),
    ensures
        r is Some <==> dec_opt_log_id(buf@, pos as int) is Some,
        r matches Option::Some(p) ==> {
            &&& dec_opt_log_id(buf@, pos as int) == Option::Some((p.0, p.1 as int))
            &&& pos < p.1 <= buf@.len()
        },
{
    if pos >= buf.len() {
        return Option::None;
    }
    let tag = buf[pos];
    if tag == 0u8 {
        Option::Some((Option::None, pos + 1))
    } else if tag == 1u8 {
        let (term, p) = match read_u64(buf, pos + 1) {
            Option::None => {
                return Option::None;
            },
            Option::Some(x) => x,
        };
        let (index, q) = match read_u64(buf, p) {
            Option::None => {
                return Option::None;
            },
            Option::Some(x) => x,
        };
        Option::Some((Option::Some(LogId { term, index }), q))
    } else {
        Option::None
    }
}

} // verus!

verus! {

/// Concatenated encodings of the ids in `s`.
pub open spec fn enc_u64_items(s: Seq<u64>) -> Seq<u8>
    decreases s.len(),
{
    if s.len() == 0 {
        Seq::empty()
    } else {
        u64_be_bytes(s[0]) + enc_u64_items(s.drop_first())
    }
}

/// Encoding of an id list: its length, then the ids.
pub open spec fn enc_u64_list(s: Seq<u64>) -> Seq<u8> {
    u64_be_bytes(s.len() as u64) + enc_u64_items(s)
}

/// Decoding of `n` consecutive ids, per [`enc_u64_items`].
pub open spec fn dec_u64_items(b: Seq<u8>, pos: int, n: nat) -> Option<(Seq<u64>, int)>
    decreases n,
{
    if n == 0 {
        Option::Some((Seq::empty(), pos))
    } else {
        match dec_u64(b, pos) {
            Option::None => Option::None,
            Option::Some((x, p)) => match dec_u64_items(b, p, (n - 1) as nat) {
                Option::None => Option::None,
                Option::Some((xs, q)) => Option::Some((seq![x] + xs, q)),
            },
        }
    }
}

/// Decoding of an id list, per [`enc_u64_list`].
pub open spec fn dec_u64_list(b: Seq<u8>, pos: int) -> Option<(Seq<u64>, int)> {
    match dec_u64(b, pos) {
        Option::None => Option::None,
        Option::Some((n, p)) => dec_u64_items(b, p, n as nat),
    }
}

/// Appending one id extends the encoding at its end.
pub proof fn lemma_enc_u64_items_push(s: Seq<u64>, x: u64)
    ensures
        enc_u64_items(s.push(x)) == enc_u64_items(s) + u64_be_bytes(x),
    decreases s.len(),
{
    if s.len() == 0 {
        assert(s.push(x)[0] == x);
        assert(s.push(x).drop_first() =~= Seq::<u64>::empty());
        assert(enc_u64_items(Seq::<u64>::empty()) =~= Seq::<u8>::empty());
        assert(enc_u64_items(s.push(x)) =~= enc_u64_items(s) + u64_be_bytes(x));
    } else {
        assert(s.push(x)[0] == s[0]);
        assert(s.push(x).drop_first() =~= s.drop_first().push(x));
        lemma_enc_u64_items_push(s.drop_first(), x);
        assert(enc_u64_items(s.push(x)) =~= enc_u64_items(s) + u64_be_bytes(x));
    }
}

/// Decoding inverts encoding for consecutive ids.
pub proof fn lemma_dec_enc_u64_items(b: Seq<u8>, pos: int, s: Seq<u64>)
    requires
        sub_at(b, pos, enc_u64_items(s)),
    ensures
        dec_u64_items(b, pos, s.len()) == Option::Some((s, pos + enc_u64_items(s).len())),
    decreases s.len(),
{
    let e = enc_u64_items(s);
    if s.len() == 0 {
        assert(dec_u64_items(b, pos, 0) == Option::Some((Seq::<u64>::empty(), pos)));
        assert(s =~= Seq::<u64>::empty());
    } else {
        let rest = enc_u64_items(s.drop_first());
        assert(b.subrange(pos, pos + e.len() as int) == e);
        assert(sub_at(b, pos, u64_be_bytes(s[0]))) by {
            assert forall|k: int| 0 <= k < 8 implies b.subrange(pos, pos + 8)[k] == u64_be_bytes(
                s[0],
            )[k] by {
                assert(b.subrange(pos, pos + e.len() as int)[k] == e[k]);
            }
            assert(b.subrange(pos, pos + 8) =~= u64_be_bytes(s[0]));
        }
        lemma_dec_enc_u64(b, pos, s[0]);
        assert(sub_at(b, pos + 8, rest)) by {
            assert forall|k: int| 0 <= k < rest.len() implies b.subrange(
                pos + 8,
                pos + 8 + rest.len() as int,
            )[k] == rest[k] by {
                assert(b.subrange(pos, pos + e.len() as int)[8 + k] == e[8 + k]);
            }
            assert(b.subrange(pos + 8, pos + 8 + rest.len() as int) =~= rest);
        }
        lemma_dec_enc_u64_items(b, pos + 8, s.drop_first());
        assert(seq![s[0]] + s.drop_first() =~= s);
    }
}

/// Decoding inverts encoding for an id list.
pub proof fn lemma_dec_enc_u64_list(b: Seq<u8>, pos: int, s: Seq<u64>)
    requires
        sub_at(b, pos, enc_u64_list(s)),
        s.len() < 0x1_0000_0000_0000_0000,
    ensures
        dec_u64_list(b, pos) == Option::Some((s, pos + enc_u64_list(s).len())),
{
    let e = enc_u64_list(s);
    let items = enc_u64_items(s);
    let n = s.len() as u64;
    assert(b.subrange(pos, pos + e.len() as int) == e);
    assert(sub_at(b, pos, u64_be_bytes(n))) by {
        assert forall|k: int| 0 <= k < 8 implies b.subrange(pos, pos + 8)[k] == u64_be_bytes(n)[k]
        by {
            assert(b.subrange(pos, pos + e.len() as int)[k] == e[k]);
        }
        assert(b.subrange(pos, pos + 8) =~= u64_be_bytes(n));
    }
    lemma_dec_enc_u64(b, pos, n);
    assert(sub_at(b, pos + 8, items)) by {
        assert forall|k: int| 0 <= k < items.len() implies b.subrange(
            pos + 8,
            pos + 8 + items.len() as int,
        )[k] == items[k] by {
            assert(b.subrange(pos, pos + e.len() as int)[8 + k] == e[8 + k]);
        }
        assert(b.subrange(pos + 8, pos + 8 + items.len() as int) =~= items);
    }
    lemma_dec_enc_u64_items(b, pos + 8, s);
}

/// Appends the encoding of an id list, per [`enc_u64_list`].
pub fn write_u64_list(out: &mut Vec<u8>, v: &Vec<u64>)
    ensures
        final(out)@ == old(out)@ + enc_u64_list(v@),
        v@.len() < 0x1_0000_0000_0000_0000,
{
    write_u64(out, v.len() as u64);
    let mut i: usize = 0;
    while i < v.len()
        invariant
            i <= v@.len(),
            out@ == old(out)@ + u64_be_bytes(v@.len() as u64) + enc_u64_items(v@.take(i as int)),
        decreases v@.len() - i,
    {
        write_u64(out, v[i]);
        proof {
            lemma_enc_u64_items_push(v@.take(i as int), v@[i as int]);
            assert(v@.take(i + 1) =~= v@.take(i as int).push(v@[i as int]));
        }
        i += 1;
    }
    proof {
        assert(v@.take(v@.len() as int) =~= v@);
    }
}

/// Reads `n` consecutive ids at `pos`, per [`dec_u64_items`].
pub fn read_u64_items(buf: &Vec<u8>, pos: usize, n: u64) -> (r: Option<(Vec<u64>, usize)>)
    requires
        pos <= buf@.len(),
    ensures
        r is Some <==> dec_u64_items(buf@, pos as int, n as nat) is Some,
        r matches Option::Some(p) ==> {
            &&& dec_u64_items(buf@, pos as int, n as nat) == Option::Some((p.0@, p.1 as int))
            &&& pos <= p.1 <= buf@.len()
        },
{
    let mut acc: Vec<u64> = Vec::new();
    let mut i: u64 = 0;
    let mut cur: usize = pos;
    while i < n
        invariant
            i <= n,
            pos <= cur <= buf@.len(),
            dec_u64_items(buf@, pos as int, n as nat) == (match dec_u64_items(
                buf@,
                cur as int,
                (n - i) as nat,
            ) {
                Option::None => Option::<(Seq<u64>, int)>::None,
                Option::Some((xs, q)) => Option::Some((acc@ + xs, q)),
            }),
        decreases n - i,
    {
        match read_u64(buf, cur) {
            Option::None => {
                return Option::None;
            },
            Option::Some((x, p)) => {
                proof {
                    if let Option::Some((xs, q)) = dec_u64_items(
                        buf@,
                        p as int,
                        (n - i - 1) as nat,
                    ) {
                        assert(acc@ + (seq![x] + xs) =~= acc@.push(x) + xs);
                    }
                }
                acc.push(x);
                cur = p;
                i += 1;
            },
        }
    }
    proof {
        assert(dec_u64_items(buf@, cur as int, 0) == Option::Some((Seq::<u64>::empty(), cur as int)));
        assert(acc@ + Seq::<u64>::empty() =~= acc@);
    }
    Option::Some((acc, cur))
}

/// Reads an id list at `pos`, per [`dec_u64_list`].
pub fn read_u64_list(buf: &Vec<u8>, pos: usize) -> (r: Option<(Vec<u64>, usize)>)
    requires
        pos <= buf@.len(),
    ensures
        r is Some <==> dec_u64_list(buf@, pos as int) is Some,
        r matches Option::Some(p) ==> {
            &&& dec_u64_list(buf@, pos as int) == Option::Some((p.0@, p.1 as int))
            &&& pos <= p.1 <= buf@.len()
        },
{
    match read_u64(buf, pos) {
        Option::None => Option::None,
        Option::Some((n, p)) => read_u64_items(buf, p, n),
    }
}

} // verus!

verus! {

/// A sub-occurrence of a concatenation splits into two sub-occurrences.
pub proof fn lemma_sub_at_split(b: Seq<u8>, pos: int, x: Seq<u8>, y: Seq<u8>)
    requires
        sub_at(b, pos, x + y),
    ensures
        sub_at(b, pos, x),
        sub_at(b, pos + x.len(), y),
{
    let e = x + y;
    assert(b.subrange(pos, pos + e.len() as int) == e);
    assert forall|k: int| 0 <= k < x.len() implies b.subrange(pos, pos + x.len() as int)[k] == x[k]
    by {
        assert(b.subrange(pos, pos + e.len() as int)[k] == e[k]);
    }
    assert(b.subrange(pos, pos + x.len() as int) =~= x);
    assert forall|k: int| 0 <= k < y.len() implies b.subrange(
        pos + x.len(),
        pos + x.len() + y.len() as int,
    )[k] == y[k] by {
        assert(b.subrange(pos, pos + e.len() as int)[x.len() + k] == e[x.len() + k]);
    }
    assert(b.subrange(pos + x.len(), pos + x.len() + y.len() as int) =~= y);
}

/// Concatenated encodings of the voter configurations in `cc`.
pub open spec fn enc_cfg_items(cc: Seq<Seq<u64>>) -> Seq<u8>
    decreases cc.len(),
{
    if cc.len() == 0 {
        Seq::empty()
    } else {
        enc_u64_list(cc[0]) + enc_cfg_items(cc.drop_first())
    }
}

/// Encoding of a configuration list: its length, then the configurations.
pub open spec fn enc_cfg_list(cc: Seq<Seq<u64>>) -> Seq<u8> {
    u64_be_bytes(cc.len() as u64) + enc_cfg_items(cc)
}

/// Every count in a configuration list fits the length prefix.
pub open spec fn cfgs_fit(cc: Seq<Seq<u64>>) -> bool {
    &&& cc.len() < 0x1_0000_0000_0000_0000
    &&& forall|i: int| 0 <= i < cc.len() ==> (#[trigger] cc[i]).len() < 0x1_0000_0000_0000_0000
}

/// Decoding of `n` consecutive voter configurations.
pub open spec fn dec_cfg_items(b: Seq<u8>, pos: int, n: nat) -> Option<(Seq<Seq<u64>>, int)>
    decreases n,
{
    if n == 0 {
        Option::Some((Seq::empty(), pos))
    } else {
        match dec_u64_list(b, pos) {
            Option::None => Option::None,
            Option::Some((x, p)) => match dec_cfg_items(b, p, (n - 1) as nat) {
                Option::None => Option::None,
                Option::Some((xs, q)) => Option::Some((seq![x] + xs, q)),
            },
        }
    }
}

/// Decoding of a configuration list, per [`enc_cfg_list`].
pub open spec fn dec_cfg_list(b: Seq<u8>, pos: int) -> Option<(Seq<Seq<u64>>, int)> {
    match dec_u64(b, pos) {
        Option::None => Option::None,
        Option::Some((n, p)) => dec_cfg_items(b, p, n as nat),
    }
}

/// Appending one configuration extends the encoding at its end.
pub proof fn lemma_enc_cfg_items_push(cc: Seq<Seq<u64>>, x: Seq<u64>)
    ensures
        enc_cfg_items(cc.push(x)) == enc_cfg_items(cc) + enc_u64_list(x),
    decreases cc.len(),
{
    if cc.len() == 0 {
        assert(cc.push(x)[0] == x);
        assert(cc.push(x).drop_first() =~= Seq::<Seq<u64>>::empty());
        assert(enc_cfg_items(Seq::<Seq<u64>>::empty()) =~= Seq::<u8>::empty());
        assert(enc_cfg_items(cc.push(x)) =~= enc_cfg_items(cc) + enc_u64_list(x));
    } else {
        assert(cc.push(x)[0] == cc[0]);
        assert(cc.push(x).drop_first() =~= cc.drop_first().push(x));
        lemma_enc_cfg_items_push(cc.drop_first(), x);
        assert(enc_cfg_items(cc.push(x)) =~= enc_cfg_items(cc) + enc_u64_list(x));
    }
}

/// Decoding inverts encoding for consecutive configurations.
pub proof fn lemma_dec_enc_cfg_items(b: Seq<u8>, pos: int, cc: Seq<Seq<u64>>)
    requires
        sub_at(b, pos, enc_cfg_items(cc)),
        forall|i: int| 0 <= i < cc.len() ==> (#[trigger] cc[i]).len() < 0x1_0000_0000_0000_0000,
    ensures
        dec_cfg_items(b, pos, cc.len()) == Option::Some((cc, pos + enc_cfg_items(cc).len())),
    decreases cc.len(),
{
    if cc.len() == 0 {
        assert(cc =~= Seq::<Seq<u64>>::empty());
    } else {
        let head = enc_u64_list(cc[0]);
        let rest = enc_cfg_items(cc.drop_first());
        lemma_sub_at_split(b, pos, head, rest);
        lemma_dec_enc_u64_list(b, pos, cc[0]);
        lemma_dec_enc_cfg_items(b, pos + head.len(), cc.drop_first());
        assert(seq![cc[0]] + cc.drop_first() =~= cc);
    }
}

/// Decoding inverts encoding for a configuration list.
pub proof fn lemma_dec_enc_cfg_list(b: Seq<u8>, pos: int, cc: Seq<Seq<u64>>)
    requires
        sub_at(b, pos, enc_cfg_list(cc)),
        cfgs_fit(cc),
    ensures
        dec_cfg_list(b, pos) == Option::Some((cc, pos + enc_cfg_list(cc).len())),
{
    let n = cc.len() as u64;
    lemma_sub_at_split(b, pos, u64_be_bytes(n), enc_cfg_items(cc));
    lemma_dec_enc_u64(b, pos, n);
    lemma_dec_enc_cfg_items(b, pos + 8, cc);
}

/// Appends the encoding of a configuration list, per [`enc_cfg_list`].
pub fn write_cfg_list(out: &mut Vec<u8>, v: &Vec<Vec<u64>>)
    ensures
        final(out)@ == old(out)@ + enc_cfg_list(v.deep_view()),
        cfgs_fit(v.deep_view()),
{
    write_u64(out, v.len() as u64);
    let mut i: usize = 0;
    while i < v.len()
        invariant
            i <= v@.len(),
            v.deep_view().len() == v@.len(),
            forall|j: int| 0 <= j < i ==> (#[trigger] v.deep_view()[j]).len()
                < 0x1_0000_0000_0000_0000,
            out@ == old(out)@ + u64_be_bytes(v@.len() as u64) + enc_cfg_items(
                v.deep_view().take(i as int),
            ),
        decreases v@.len() - i,
    {
        write_u64_list(out, &v[i]);
        proof {
            assert(v.deep_view()[i as int] == v@[i as int]@);
            lemma_enc_cfg_items_push(v.deep_view().take(i as int), v.deep_view()[i as int]);
            assert(v.deep_view().take(i + 1) =~= v.deep_view().take(i as int).push(
                v.deep_view()[i as int],
            ));
        }
        i += 1;
    }
    proof {
        assert(v.deep_view().take(v@.len() as int) =~= v.deep_view());
    }
}

/// Reads `n` consecutive configurations at `pos`, per [`dec_cfg_items`].
pub fn read_cfg_items(buf: &Vec<u8>, pos: usize, n: u64) -> (r: Option<(Vec<Vec<u64>>, usize)>)
    requires
        pos <= buf@.len(),
    ensures
        r is Some <==> dec_cfg_items(buf@, pos as int, n as nat) is Some,
        r matches Option::Some(p) ==> {
            &&& dec_cfg_items(buf@, pos as int, n as nat) == Option::Some(
                (p.0.deep_view(), p.1 as int),
            )
            &&& pos <= p.1 <= buf@.len()
        },
{
    let mut acc: Vec<Vec<u64>> = Vec::new();
    let mut i: u64 = 0;
    let mut cur: usize = pos;
    while i < n
        invariant
            i <= n,
            pos <= cur <= buf@.len(),
            dec_cfg_items(buf@, pos as int, n as nat) == (match dec_cfg_items(
                buf@,
                cur as int,
                (n - i) as nat,
            ) {
                Option::None => Option::<(Seq<Seq<u64>>, int)>::None,
                Option::Some((xs, q)) => Option::Some((acc.deep_view() + xs, q)),
            }),
        decreases n - i,
    {
        match read_u64_list(buf, cur) {
            Option::None => {
                return Option::None;
            },
            Option::Some((x, p)) => {
                proof {
                    if let Option::Some((xs, q)) = dec_cfg_items(
                        buf@,
                        p as int,
                        (n - i - 1) as nat,
                    ) {
                        assert(acc.deep_view() + (seq![x@] + xs) =~= acc.deep_view().push(x@) + xs);
                    }
                }
                let ghost old_acc = acc;
                acc.push(x);
                proof {
                    assert(acc.deep_view() =~~= old_acc.deep_view().push(x@));
                }
                cur = p;
                i += 1;
            },
        }
    }
    proof {
        assert(dec_cfg_items(buf@, cur as int, 0) == Option::Some(
            (Seq::<Seq<u64>>::empty(), cur as int),
        ));
        assert(acc.deep_view() + Seq::<Seq<u64>>::empty() =~= acc.deep_view());
    }
    Option::Some((acc, cur))
}

/// Reads a configuration list at `pos`, per [`dec_cfg_list`].
pub fn read_cfg_list(buf: &Vec<u8>, pos: usize) -> (r: Option<(Vec<Vec<u64>>, usize)>)
    requires
        pos <= buf@.len(),
    ensures
        r is Some <==> dec_cfg_list(buf@, pos as int) is Some,
        r matches Option::Some(p) ==> {
            &&& dec_cfg_list(buf@, pos as int) == Option::Some((p.0.deep_view(), p.1 as int))
            &&& pos <= p.1 <= buf@.len()
        },
{
    match read_u64(buf, pos) {
        Option::None => Option::None,
        Option::Some((n, p)) => read_cfg_items(buf, p, n),
    }
}

} // verus!

verus! {

/// Ghost view of a sequence of key-value pairs.
pub open spec fn pairs_view(s: Seq<(String, String)>) -> Seq<(Seq<char>, Seq<char>)> {
    s.map_values(|p: (String, String)| (p.0@, p.1@))
}

/// Encoding of one key-value pair: the key, then the value.
pub open spec fn enc_pair(p: (Seq<char>, Seq<char>)) -> Seq<u8> {
    enc_chars(p.0) + enc_chars(p.1)
}

/// Concatenated encodings of the pairs in `s`.
pub open spec fn enc_pair_items(s: Seq<(Seq<char>, Seq<char>)>) -> Seq<u8>
    decreases s.len(),
{
    if s.len() == 0 {
        Seq::empty()
    } else {
        enc_pair(s[0]) + enc_pair_items(s.drop_first())
    }
}

/// Encoding of a pair list: its length, then the pairs.
pub open spec fn enc_pair_list(s: Seq<(Seq<char>, Seq<char>)>) -> Seq<u8> {
    u64_be_bytes(s.len() as u64) + enc_pair_items(s)
}

/// Every count in a pair list fits its length prefix.
pub open spec fn pairs_fit(s: Seq<(Seq<char>, Seq<char>)>) -> bool {
    &&& s.len() < 0x1_0000_0000_0000_0000
    &&& forall|i: int| 0 <= i < s.len() ==> encode_utf8((#[trigger] s[i]).0).len()
        < 0x1_0000_0000_0000_0000 && encode_utf8(s[i].1).len() < 0x1_0000_0000_0000_0000
}

/// Decoding of one pair, per [`enc_pair`].
pub open spec fn dec_pair(b: Seq<u8>, pos: int) -> Option<((Seq<char>, Seq<char>), int)> {
    match dec_chars(b, pos) {
        Option::None => Option::None,
        Option::Some((k, p)) => match dec_chars(b, p) {
            Option::None => Option::None,
            Option::Some((v, q)) => Option::Some(((k, v), q)),
        },
    }
}

/// Decoding of `n` consecutive pairs, per [`enc_pair_items`].
pub open spec fn dec_pair_items(b: Seq<u8>, pos: int, n: nat) -> Option<
    (Seq<(Seq<char>, Seq<char>)>, int),
>
    decreases n,
{
    if n == 0 {
        Option::Some((Seq::empty(), pos))
    } else {
        match dec_pair(b, pos) {
            Option::None => Option::None,
            Option::Some((x, p)) => match dec_pair_items(b, p, (n - 1) as nat) {
                Option::None => Option::None,
                Option::Some((xs, q)) => Option::Some((seq![x] + xs, q)),
            },
        }
    }
}

/// Decoding of a pair list, per [`enc_pair_list`].
pub open spec fn dec_pair_list(b: Seq<u8>, pos: int) -> Option<(Seq<(Seq<char>, Seq<char>)>, int)> {
    match dec_u64(b, pos) {
        Option::None => Option::None,
        Option::Some((n, p)) => dec_pair_items(b, p, n as nat),
    }
}

/// Appending one pair extends the encoding at its end.
pub proof fn lemma_enc_pair_items_push(s: Seq<(Seq<char>, Seq<char>)>, x: (Seq<char>, Seq<char>))
    ensures
        enc_pair_items(s.push(x)) == enc_pair_items(s) + enc_pair(x),
    decreases s.len(),
{
    if s.len() == 0 {
        assert(s.push(x)[0] == x);
        assert(s.push(x).drop_first() =~= Seq::<(Seq<char>, Seq<char>)>::empty());
        assert(enc_pair_items(Seq::<(Seq<char>, Seq<char>)>::empty()) =~= Seq::<u8>::empty());
        assert(enc_pair_items(s.push(x)) =~= enc_pair_items(s) + enc_pair(x));
    } else {
        assert(s.push(x)[0] == s[0]);
        assert(s.push(x).drop_first() =~= s.drop_first().push(x));
        lemma_enc_pair_items_push(s.drop_first(), x);
        assert(enc_pair_items(s.push(x)) =~= enc_pair_items(s) + enc_pair(x));
    }
}

/// Decoding inverts encoding for one pair.
pub proof fn lemma_dec_enc_pair(b: Seq<u8>, pos: int, x: (Seq<char>, Seq<char>))
    requires
        sub_at(b, pos, enc_pair(x)),
        encode_utf8(x.0).len() < 0x1_0000_0000_0000_0000,
        encode_utf8(x.1).len() < 0x1_0000_0000_0000_0000,
    ensures
        dec_pair(b, pos) == Option::Some((x, pos + enc_pair(x).len())),
{
    lemma_sub_at_split(b, pos, enc_chars(x.0), enc_chars(x.1));
    lemma_dec_enc_chars(b, pos, x.0);
    lemma_dec_enc_chars(b, pos + enc_chars(x.0).len(), x.1);
}

/// Decoding inverts encoding for consecutive pairs.
pub proof fn lemma_dec_enc_pair_items(b: Seq<u8>, pos: int, s: Seq<(Seq<char>, Seq<char>)>)
    requires
        sub_at(b, pos, enc_pair_items(s)),
        forall|i: int| 0 <= i < s.len() ==> encode_utf8((#[trigger] s[i]).0).len()
            < 0x1_0000_0000_0000_0000 && encode_utf8(s[i].1).len() < 0x1_0000_0000_0000_0000,
    ensures
        dec_pair_items(b, pos, s.len()) == Option::Some((s, pos + enc_pair_items(s).len())),
    decreases s.len(),
{
    if s.len() == 0 {
        assert(s =~= Seq::<(Seq<char>, Seq<char>)>::empty());
    } else {
        let head = enc_pair(s[0]);
        let rest = enc_pair_items(s.drop_first());
        lemma_sub_at_split(b, pos, head, rest);
        lemma_dec_enc_pair(b, pos, s[0]);
        lemma_dec_enc_pair_items(b, pos + head.len(), s.drop_first());
        assert(seq![s[0]] + s.drop_first() =~= s);
    }
}

/// Decoding inverts encoding for a pair list.
pub proof fn lemma_dec_enc_pair_list(b: Seq<u8>, pos: int, s: Seq<(Seq<char>, Seq<char>)>)
    requires
        sub_at(b, pos, enc_pair_list(s)),
        pairs_fit(s),
    ensures
        dec_pair_list(b, pos) == Option::Some((s, pos + enc_pair_list(s).len())),
{
    let n = s.len() as u64;
    lemma_sub_at_split(b, pos, u64_be_bytes(n), enc_pair_items(s));
    lemma_dec_enc_u64(b, pos, n);
    lemma_dec_enc_pair_items(b, pos + 8, s);
}

/// Appends the encoding of a pair list, per [`enc_pair_list`].
pub fn write_pair_list(out: &mut Vec<u8>, v: &Vec<(String, String)>)
    ensures
        final(out)@ == old(out)@ + enc_pair_list(pairs_view(v@)),
        pairs_fit(pairs_view(v@)),
{
    write_u64(out, v.len() as u64);
    let mut i: usize = 0;
    while i < v.len()
        invariant
            i <= v@.len(),
            pairs_view(v@).len() == v@.len(),
            forall|j: int| 0 <= j < i ==> encode_utf8((#[trigger] pairs_view(v@)[j]).0).len()
                < 0x1_0000_0000_0000_0000 && encode_utf8(pairs_view(v@)[j].1).len()
                < 0x1_0000_0000_0000_0000,
            out@ == old(out)@ + u64_be_bytes(v@.len() as u64) + enc_pair_items(
                pairs_view(v@).take(i as int),
            ),
        decreases v@.len() - i,
    {
        write_chars(out, &v[i].0);
        write_chars(out, &v[i].1);
        proof {
            assert(pairs_view(v@)[i as int] == (v@[i as int].0@, v@[i as int].1@));
            lemma_enc_pair_items_push(pairs_view(v@).take(i as int), pairs_view(v@)[i as int]);
            assert(pairs_view(v@).take(i + 1) =~= pairs_view(v@).take(i as int).push(
                pairs_view(v@)[i as int],
            ));
            assert(out@ =~= old(out)@ + u64_be_bytes(v@.len() as u64) + enc_pair_items(
                pairs_view(v@).take(i + 1),
            ));
        }
        i += 1;
    }
    proof {
        assert(pairs_view(v@).take(v@.len() as int) =~= pairs_view(v@));
    }
}

/// Reads one pair at `pos`, per [`dec_pair`].
pub fn read_pair(buf: &Vec<u8>, pos: usize) -> (r: Option<((String, String), usize)>)
    requires
        pos <= buf@.len(),
    ensures
        r is Some <==> dec_pair(buf@, pos as int) is Some,
        r matches Option::Some(p) ==> {
            &&& dec_pair(buf@, pos as int) == Option::Some(((p.0.0@, p.0.1@), p.1 as int))
            &&& pos < p.1 <= buf@.len()
        },
{
    let (k, p) = match read_chars(buf, pos) {
        Option::None => {
            return Option::None;
        },
        Option::Some(x) => x,
    };
    let (v, q) = match read_chars(buf, p) {
        Option::None => {
            return Option::None;
        },
        Option::Some(x) => x,
    };
    Option::Some(((k, v), q))
}

/// Reads `n` consecutive pairs at `pos`, per [`dec_pair_items`].
pub fn read_pair_items(buf: &Vec<u8>, pos: usize, n: u64) -> (r: Option<
    (Vec<(String, String)>, usize),
>)
    requires
        pos <= buf@.len(),
    ensures
        r is Some <==> dec_pair_items(buf@, pos as int, n as nat) is Some,
        r matches Option::Some(p) ==> {
            &&& dec_pair_items(buf@, pos as int, n as nat) == Option::Some(
                (pairs_view(p.0@), p.1 as int),
            )
            &&& pos <= p.1 <= buf@.len()
        },
{
    let mut acc: Vec<(String, String)> = Vec::new();
    let mut i: u64 = 0;
    let mut cur: usize = pos;
    while i < n
        invariant
            i <= n,
            pos <= cur <= buf@.len(),
            dec_pair_items(buf@, pos as int, n as nat) == (match dec_pair_items(
                buf@,
                cur as int,
                (n - i) as nat,
            ) {
                Option::None => Option::<(Seq<(Seq<char>, Seq<char>)>, int)>::None,
                Option::Some((xs, q)) => Option::Some((pairs_view(acc@) + xs, q)),
            }),
        decreases n - i,
    {
        match read_pair(buf, cur) {
            Option::None => {
                return Option::None;
            },
            Option::Some((x, p)) => {
                proof {
                    if let Option::Some((xs, q)) = dec_pair_items(
                        buf@,
                        p as int,
                        (n - i - 1) as nat,
                    ) {
                        assert(pairs_view(acc@) + (seq![(x.0@, x.1@)] + xs) =~= pairs_view(
                            acc@,
                        ).push((x.0@, x.1@)) + xs);
                    }
                }
                let ghost old_acc = acc;
                acc.push(x);
                proof {
                    assert(pairs_view(acc@) =~= pairs_view(old_acc@).push(
                        (acc@[acc@.len() - 1].0@, acc@[acc@.len() - 1].1@),
                    ));
                }
                cur = p;
                i += 1;
            },
        }
    }
    proof {
        assert(dec_pair_items(buf@, cur as int, 0) == Option::Some(
            (Seq::<(Seq<char>, Seq<char>)>::empty(), cur as int),
        ));
        assert(pairs_view(acc@) + Seq::<(Seq<char>, Seq<char>)>::empty() =~= pairs_view(acc@));
    }
    Option::Some((acc, cur))
}

/// Reads a pair list at `pos`, per [`dec_pair_list`].
pub fn read_pair_list(buf: &Vec<u8>, pos: usize) -> (r: Option<(Vec<(String, String)>, usize)>)
    requires
        pos <= buf@.len(),
    ensures
        r is Some <==> dec_pair_list(buf@, pos as int) is Some,
        r matches Option::Some(p) ==> {
            &&& dec_pair_list(buf@, pos as int) == Option::Some((pairs_view(p.0@), p.1 as int))
            &&& pos <= p.1 <= buf@.len()
        },
{
    match read_u64(buf, pos) {
        Option::None => Option::None,
        Option::Some((n, p)) => read_pair_items(buf, p, n),
    }
}

} // verus!

verus! {

/// Encoding of a membership configuration: voter configurations, then
/// learners.
pub open spec fn enc_membership(m: crate::types::MembershipV) -> Seq<u8> {
    enc_cfg_list(m.configs) + enc_u64_list(m.learners)
}

/// Every count in a membership configuration fits its length prefix.
pub open spec fn membership_fit(m: crate::types::MembershipV) -> bool {
    &&& cfgs_fit(m.configs)
    &&& m.learners.len() < 0x1_0000_0000_0000_0000
}

/// Decoding of a membership configuration, per [`enc_membership`].
pub open spec fn dec_membership(b: Seq<u8>, pos: int) -> Option<(crate::types::MembershipV, int)> {
    match dec_cfg_list(b, pos) {
        Option::None => Option::None,
        Option::Some((configs, p)) => match dec_u64_list(b, p) {
            Option::None => Option::None,
            Option::Some((learners, q)) => Option::Some(
                (crate::types::MembershipV { configs, learners }, q),
            ),
        },
    }
}

/// Decoding inverts encoding for a membership configuration.
pub proof fn lemma_dec_enc_membership(b: Seq<u8>, pos: int, m: crate::types::MembershipV)
    requires
        sub_at(b, pos, enc_membership(m)),
        membership_fit(m),
    ensures
        dec_membership(b, pos) == Option::Some((m, pos + enc_membership(m).len())),
{
    lemma_sub_at_split(b, pos, enc_cfg_list(m.configs), enc_u64_list(m.learners));
    lemma_dec_enc_cfg_list(b, pos, m.configs);
    lemma_dec_enc_u64_list(b, pos + enc_cfg_list(m.configs).len(), m.learners);
}

/// Appends the encoding of a membership configuration.
pub fn write_membership(out: &mut Vec<u8>, m: &crate::types::MembershipConfig)
    ensures
        final(out)@ == old(out)@ + enc_membership(m@),
        membership_fit(m@),
{
    write_cfg_list(out, &m.configs);
    write_u64_list(out, &m.learners);
}

/// Reads a membership configuration at `pos`, per [`dec_membership`].
pub fn read_membership(buf: &Vec<u8>, pos: usize) -> (r: Option<
    (crate::types::MembershipConfig, usize),
>)
    requires
        pos <= buf@.len(),
    ensures
        r is Some <==> dec_membership(buf@, pos as int) is Some,
        r matches Option::Some(p) ==> {
            &&& dec_membership(buf@, pos as int) == Option::Some((p.0@, p.1 as int))
            &&& pos <= p.1 <= buf@.len()
        },
{
    let (configs, p) = match read_cfg_list(buf, pos) {
        Option::None => {
            return Option::None;
        },
        Option::Some(x) => x,
    };
    let (learners, q) = match read_u64_list(buf, p) {
        Option::None => {
            return Option::None;
        },
        Option::Some(x) => x,
    };
    Option::Some((crate::types::MembershipConfig { configs, learners }, q))
}

/// Encoding of an optional effective membership: a presence tag, then the
/// log id it took effect at and the configuration.
pub open spec fn enc_opt_eff_membership(o: Option<crate::types::EffectiveMembershipV>) -> Seq<u8> {
    match o {
        Option::None => seq![0u8],
        Option::Some(e) => seq![1u8] + enc_log_id(e.log_id) + enc_membership(e.membership),
    }
}

/// Every count in an optional effective membership fits its prefix.
pub open spec fn opt_eff_membership_fit(o: Option<crate::types::EffectiveMembershipV>) -> bool {
    match o {
        Option::None => true,
        Option::Some(e) => membership_fit(e.membership),
    }
}

/// Decoding of an optional effective membership.
pub open spec fn dec_opt_eff_membership(b: Seq<u8>, pos: int) -> Option<
    (Option<crate::types::EffectiveMembershipV>, int),
> {
    if 0 <= pos && pos + 1 <= b.len() {
        if b[pos] == 0u8 {
            Option::Some((Option::None, pos + 1))
        } else if b[pos] == 1u8 {
            match dec_u64(b, pos + 1) {
                Option::None => Option::None,
                Option::Some((term, p)) => match dec_u64(b, p) {
                    Option::None => Option::None,
                    Option::Some((index, q)) => match dec_membership(b, q) {
                        Option::None => Option::None,
                        Option::Some((m, w)) => Option::Some(
                            (
                                Option::Some(
                                    crate::types::EffectiveMembershipV {
                                        log_id: LogId { term, index },
                                        membership: m,
                                    },
                                ),
                                w,
                            ),
                        ),
                    },
                },
            }
        } else {
            Option::None
        }
    } else {
        Option::None
    }
}

/// Decoding inverts encoding for an optional effective membership.
pub proof fn lemma_dec_enc_opt_eff_membership(
    b: Seq<u8>,
    pos: int,
    o: Option<crate::types::EffectiveMembershipV>,
)
    requires
        sub_at(b, pos, enc_opt_eff_membership(o)),
        opt_eff_membership_fit(o),
    ensures
        dec_opt_eff_membership(b, pos) == Option::Some((o, pos + enc_opt_eff_membership(o).len())),
{
    let e = enc_opt_eff_membership(o);
    assert(b.subrange(pos, pos + e.len() as int) == e);
    assert(b[pos] == e[0]) by {
        assert(b.subrange(pos, pos + e.len() as int)[0] == e[0]);
    }
    match o {
        Option::None => {},
        Option::Some(em) => {
            let tail = enc_log_id(em.log_id) + enc_membership(em.membership);
            assert(sub_at(b, pos + 1, tail)) by {
                assert forall|k: int| 0 <= k < tail.len() implies b.subrange(
                    pos + 1,
                    pos + 1 + tail.len() as int,
                )[k] == tail[k] by {
                    assert(b.subrange(pos, pos + e.len() as int)[1 + k] == e[1 + k]);
                }
                assert(b.subrange(pos + 1, pos + 1 + tail.len() as int) =~= tail);
            }
            lemma_sub_at_split(b, pos + 1, enc_log_id(em.log_id), enc_membership(em.membership));
            lemma_sub_at_split(
                b,
                pos + 1,
                u64_be_bytes(em.log_id.term),
                u64_be_bytes(em.log_id.index),
            );
            lemma_dec_enc_u64(b, pos + 1, em.log_id.term);
            lemma_dec_enc_u64(b, pos + 9, em.log_id.index);
            lemma_dec_enc_membership(b, pos + 17, em.membership);
        },
    }
}

/// Appends the encoding of an optional effective membership.
pub fn write_opt_eff_membership(out: &mut Vec<u8>, o: &Option<crate::types::EffectiveMembership>)
    ensures
        final(out)@ == old(out)@ + enc_opt_eff_membership(o.deep_view()),
        opt_eff_membership_fit(o.deep_view()),
{
    match o {
        Option::None => {
            out.push(0u8);
            proof {
                assert(out@ =~= old(out)@ + enc_opt_eff_membership(
                    Option::<crate::types::EffectiveMembershipV>::None,
                ));
            }
        },
        Option::Some(e) => {
            out.push(1u8);
            write_u64(out, e.log_id.term);
            write_u64(out, e.log_id.index);
            write_membership(out, &e.membership);
            proof {
                assert(out@ =~= old(out)@ + enc_opt_eff_membership(Option::Some(e@)));
            }
        },
    }
}

/// Reads an optional effective membership at `pos`.
pub fn read_opt_eff_membership(buf: &Vec<u8>, pos: usize) -> (r: Option<
    (Option<crate::types::EffectiveMembership>, usize),
>)
    requires
        pos <= buf@.len(),
    ensures
        r is Some <==> dec_opt_eff_membership(buf@, pos as int) is Some,
        r matches Option::Some(p) ==> {
            &&& dec_opt_eff_membership(buf@, pos as int) == Option::Some(
                (p.0.deep_view(), p.1 as int),
            )
            &&& pos < p.1 <= buf@.len()
        },
{
    if pos >= buf.len() {
        return Option::None;
    }
    let tag = buf[pos];
    if tag == 0u8 {
        Option::Some((Option::None, pos + 1))
    } else if tag == 1u8 {
        let (term, p) = match read_u64(buf, pos + 1) {
            Option::None => {
                return Option::None;
            },
            Option::Some(x) => x,
        };
        let (index, q) = match read_u64(buf, p) {
            Option::None => {
                return Option::None;
            },
            Option::Some(x) => x,
        };
        let (m, w) = match read_membership(buf, q) {
            Option::None => {
                return Option::None;
            },
            Option::Some(x) => x,
        };
        Option::Some(
            (
                Option::Some(
                    crate::types::EffectiveMembership { log_id: LogId { term, index }, membership: m },
                ),
                w,
            ),
        )
    } else {
        Option::None
    }
}

} // verus!

verus! {

/// `a` is lexicographically below `b`: they agree up to some position, at
/// which `a` holds the smaller byte.
pub open spec fn bytes_lex_lt(a: Seq<u8>, b: Seq<u8>) -> bool {
    exists|k: int|
        0 <= k < a.len() && k < b.len() && (forall|j: int| 0 <= j < k ==> a[j] == b[j]) && (
        #[trigger] a[k]) < b[k]
}

/// A lexicographically smaller 8-byte string reads back as a smaller
/// big-endian value.
proof fn lemma_be_bytes_lt_implies(a: Seq<u8>, b: Seq<u8>)
    requires
        a.len() == 8,
        b.len() == 8,
        bytes_lex_lt(a, b),
    ensures
        u64_of_be(a) < u64_of_be(b),
{
    let a0 = a[0];
    let a1 = a[1];
    let a2 = a[2];
    let a3 = a[3];
    let a4 = a[4];
    let a5 = a[5];
    let a6 = a[6];
    let a7 = a[7];
    let b0 = b[0];
    let b1 = b[1];
    let b2 = b[2];
    let b3 = b[3];
    let b4 = b[4];
    let b5 = b[5];
    let b6 = b[6];
    let b7 = b[7];
    let k = choose|k: int|
        0 <= k < a.len() && k < b.len() && (forall|j: int| 0 <= j < k ==> a[j] == b[j]) && (
        #[trigger] a[k]) < b[k];
    if k == 0 {
        assert(a0 < b0 ==> ((a0 as u64) << 56 | (a1 as u64) << 48 | (a2 as u64) << 40 | (
        a3 as u64) << 32 | (a4 as u64) << 24 | (a5 as u64) << 16 | (a6 as u64) << 8 | (a7 as u64))
            < ((b0 as u64) << 56 | (b1 as u64) << 48 | (b2 as u64) << 40 | (b3 as u64) << 32 | (
        b4 as u64) << 24 | (b5 as u64) << 16 | (b6 as u64) << 8 | (b7 as u64))) by (bit_vector);
    } else if k == 1 {
        assert(a0 == b0 && a1 < b1 ==> ((a0 as u64) << 56 | (a1 as u64) << 48 | (a2 as u64) << 40
            | (a3 as u64) << 32 | (a4 as u64) << 24 | (a5 as u64) << 16 | (a6 as u64) << 8 | (
        a7 as u64)) < ((b0 as u64) << 56 | (b1 as u64) << 48 | (b2 as u64) << 40 | (b3 as u64)
            << 32 | (b4 as u64) << 24 | (b5 as u64) << 16 | (b6 as u64) << 8 | (
        b7 as u64))) by (bit_vector);
    } else if k == 2 {
        assert(a0 == b0 && a1 == b1 && a2 < b2 ==> ((a0 as u64) << 56 | (a1 as u64) << 48 | (
        a2 as u64) << 40 | (a3 as u64) << 32 | (a4 as u64) << 24 | (a5 as u64) << 16 | (a6 as u64)
            << 8 | (a7 as u64)) < ((b0 as u64) << 56 | (b1 as u64) << 48 | (b2 as u64) << 40 | (
        b3 as u64) << 32 | (b4 as u64) << 24 | (b5 as u64) << 16 | (b6 as u64) << 8 | (
        b7 as u64))) by (bit_vector);
    } else if k == 3 {
        assert(a0 == b0 && a1 == b1 && a2 == b2 && a3 < b3 ==> ((a0 as u64) << 56 | (a1 as u64)
            << 48 | (a2 as u64) << 40 | (a3 as u64) << 32 | (a4 as u64) << 24 | (a5 as u64) << 16
            | (a6 as u64) << 8 | (a7 as u64)) < ((b0 as u64) << 56 | (b1 as u64) << 48 | (
        b2 as u64) << 40 | (b3 as u64) << 32 | (b4 as u64) << 24 | (b5 as u64) << 16 | (b6 as u64)
            << 8 | (b7 as u64))) by (bit_vector);
    } else if k == 4 {
        assert(a0 == b0 && a1 == b1 && a2 == b2 && a3 == b3 && a4 < b4 ==> ((a0 as u64) << 56 | (
        a1 as u64) << 48 | (a2 as u64) << 40 | (a3 as u64) << 32 | (a4 as u64) << 24 | (a5 as u64)
            << 16 | (a6 as u64) << 8 | (a7 as u64)) < ((b0 as u64) << 56 | (b1 as u64) << 48 | (
        b2 as u64) << 40 | (b3 as u64) << 32 | (b4 as u64) << 24 | (b5 as u64) << 16 | (b6 as u64)
            << 8 | (b7 as u64))) by (bit_vector);
    } else if k == 5 {
        assert(a0 == b0 && a1 == b1 && a2 == b2 && a3 == b3 && a4 == b4 && a5 < b5 ==> ((
        a0 as u64) << 56 | (a1 as u64) << 48 | (a2 as u64) << 40 | (a3 as u64) << 32 | (a4 as u64)
            << 24 | (a5 as u64) << 16 | (a6 as u64) << 8 | (a7 as u64)) < ((b0 as u64) << 56 | (
        b1 as u64) << 48 | (b2 as u64) << 40 | (b3 as u64) << 32 | (b4 as u64) << 24 | (b5 as u64)
            << 16 | (b6 as u64) << 8 | (b7 as u64))) by (bit_vector);
    } else if k == 6 {
        assert(a0 == b0 && a1 == b1 && a2 == b2 && a3 == b3 && a4 == b4 && a5 == b5 && a6 < b6
            ==> ((a0 as u64) << 56 | (a1 as u64) << 48 | (a2 as u64) << 40 | (a3 as u64) << 32 | (
        a4 as u64) << 24 | (a5 as u64) << 16 | (a6 as u64) << 8 | (a7 as u64)) < ((b0 as u64)
            << 56 | (b1 as u64) << 48 | (b2 as u64) << 40 | (b3 as u64) << 32 | (b4 as u64) << 24
            | (b5 as u64) << 16 | (b6 as u64) << 8 | (b7 as u64))) by (bit_vector);
    } else {
        assert(a0 == b0 && a1 == b1 && a2 == b2 && a3 == b3 && a4 == b4 && a5 == b5 && a6 == b6
            && a7 < b7 ==> ((a0 as u64) << 56 | (a1 as u64) << 48 | (a2 as u64) << 40 | (
        a3 as u64) << 32 | (a4 as u64) << 24 | (a5 as u64) << 16 | (a6 as u64) << 8 | (a7 as u64))
            < ((b0 as u64) << 56 | (b1 as u64) << 48 | (b2 as u64) << 40 | (b3 as u64) << 32 | (
        b4 as u64) << 24 | (b5 as u64) << 16 | (b6 as u64) << 8 | (b7 as u64))) by (bit_vector);
    }
}

/// Lexicographic order on two 8-byte strings is numeric order on the
/// big-endian values they read back as.
#[verifier::rlimit(100)]
pub proof fn lemma_be_bytes_order(a: Seq<u8>, b: Seq<u8>)
    requires
        a.len() == 8,
        b.len() == 8,
    ensures
        bytes_lex_lt(a, b) <==> u64_of_be(a) < u64_of_be(b),
{
    if bytes_lex_lt(a, b) {
        lemma_be_bytes_lt_implies(a, b);
    }
    if u64_of_be(a) < u64_of_be(b) {
        if a =~= b {
            assert(false);
        }
        let k = choose|k: int| 0 <= k < 8 && a[k] != b[k] && (forall|j: int| 0 <= j < k ==> a[j]
            == b[j]);
        assert(exists|k: int|
            0 <= k < 8 && a[k] != b[k] && (forall|j: int| 0 <= j < k ==> a[j] == b[j])) by {
            if a[0] != b[0] {
                assert(0 <= 0 < 8 && a[0] != b[0] && (forall|j: int| 0 <= j < 0 ==> a[j] == b[j]));
            } else if a[1] != b[1] {
                assert(0 <= 1 < 8 && a[1] != b[1] && (forall|j: int| 0 <= j < 1 ==> a[j] == b[j]));
            } else if a[2] != b[2] {
                assert(0 <= 2 < 8 && a[2] != b[2] && (forall|j: int| 0 <= j < 2 ==> a[j] == b[j]));
            } else if a[3] != b[3] {
                assert(0 <= 3 < 8 && a[3] != b[3] && (forall|j: int| 0 <= j < 3 ==> a[j] == b[j]));
            } else if a[4] != b[4] {
                assert(0 <= 4 < 8 && a[4] != b[4] && (forall|j: int| 0 <= j < 4 ==> a[j] == b[j]));
            } else if a[5] != b[5] {
                assert(0 <= 5 < 8 && a[5] != b[5] && (forall|j: int| 0 <= j < 5 ==> a[j] == b[j]));
            } else if a[6] != b[6] {
                assert(0 <= 6 < 8 && a[6] != b[6] && (forall|j: int| 0 <= j < 6 ==> a[j] == b[j]));
            } else if a[7] != b[7] {
                assert(0 <= 7 < 8 && a[7] != b[7] && (forall|j: int| 0 <= j < 7 ==> a[j] == b[j]));
            } else {
                assert(a =~= b);
                assert(false);
            }
        }
        if a[k] < b[k] {
            assert(bytes_lex_lt(a, b));
        } else {
            assert(bytes_lex_lt(b, a));
            lemma_be_bytes_lt_implies(b, a);
            assert(false);
        }
    }
}

/// The reason the log key is big-endian: byte-wise (lexicographic) order
/// of two encoded indices is exactly numeric order of the indices, so an
/// ordered key-value store keeps the log in index order.
pub proof fn lemma_be_key_order(x: u64, y: u64)
    ensures
        bytes_lex_lt(u64_be_bytes(x), u64_be_bytes(y)) <==> x < y,
{
    lemma_u64_be_round_trip(x);
    lemma_u64_be_round_trip(y);
    lemma_be_bytes_order(u64_be_bytes(x), u64_be_bytes(y));
}

} // verus!
