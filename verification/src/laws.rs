//! The protocol's general laws, proved once and for all inputs: what a
//! well-formed `get` or `set` request parses to, and that serializing a
//! `VALUE` reply and re-reading it reproduces it exactly.

use vstd::prelude::*;
use vstd::utf8::valid_utf8;
use vstd::utf8::decode_utf8;
use vstd::utf8::encode_utf8;
use crate::cmd::CmdModel;
use crate::cmd::SetInstr;
use crate::stats::TransportStats;
use crate::stream::ByteStream;
use crate::transport::TcpTransport;
use crate::conversions::lemma_ascii_valid_utf8;
use crate::wire::BYTE_CARRIAGE_RETURN;
use crate::wire::BYTE_LINE_FEED;
use crate::wire::BYTE_SPACE;
use crate::wire::ParseOutcome;
use crate::wire::TokOutcome;
use crate::wire::crlf;
use crate::wire::dec_value;
use crate::wire::dec_repr;
use crate::wire::end_line_bytes;
use crate::wire::get_keyword;
use crate::wire::is_dec_digits;
use crate::wire::is_word_byte;
use crate::wire::lemma_dec_repr_value;
use crate::wire::lemma_tok_word_crlf;
use crate::wire::lemma_tok_word_space;
use crate::wire::parse_cmd;
use crate::wire::parse_get_tail;
use crate::wire::parse_set_bytelen;
use crate::wire::parse_set_exptime;
use crate::wire::parse_set_flags;
use crate::wire::parse_set_key;
use crate::wire::parse_set_payload;
use crate::wire::parse_value_resp;
use crate::wire::set_keyword;
use crate::wire::tokenize_word;
use crate::wire::value_keyword;
use crate::wire::value_resp_bytes;

verus! {

/// For every valid `get <key>` line — the key nonempty text without space,
/// CR or LF — reading a command yields exactly `Get` with that key, and
/// consumes exactly the line's bytes, leaving the rest of the stream
/// untouched.
pub proof fn lemma_get_line_parses(key: Seq<u8>, rest: Seq<u8>)
    requires
        key.len() > 0,
        valid_utf8(key),
        forall|i: int|
            0 <= i < key.len() ==> is_word_byte(#[trigger] key[i]) && key[i] != BYTE_LINE_FEED,
    ensures
        ({
            let line = get_keyword() + seq![BYTE_SPACE] + key + crlf();
            parse_cmd(line + rest) == (ParseOutcome::Parsed {
                cmd: CmdModel::Get { key: decode_utf8(key) },
                used: line.len() as int,
            })
        }),
{
    reveal(parse_cmd);
    reveal(parse_get_tail);
    let line = get_keyword() + seq![BYTE_SPACE] + key + crlf();
    let s = line + rest;
    let tail = key + crlf() + rest;
    assert(s =~= get_keyword() + seq![BYTE_SPACE] + tail);
    assert(forall|i: int|
        0 <= i < get_keyword().len() ==> is_word_byte(#[trigger] get_keyword()[i]));
    lemma_tok_word_space(get_keyword(), tail);
    assert(forall|i: int| 0 <= i < get_keyword().len() ==> #[trigger] get_keyword()[i] < 0x80);
    lemma_ascii_valid_utf8(get_keyword());
    assert(s.skip(4) =~= tail);
    lemma_tok_word_crlf(key, rest);
    assert(tokenize_word(tail) == (TokOutcome::Token {
        word: key,
        eol: true,
        used: key.len() + 2int,
    }));
}

/// For every valid `set` line with its payload — key text, the three
/// numeric fields strict decimals that fit their widths, and the payload
/// exactly as long as the declared count — reading a command yields exactly
/// `Set` with those fields, the payload of exactly the declared length, and
/// consumes the line, the payload, and the two terminator bytes directly
/// after it, nothing more.
#[verifier::rlimit(100)]
#[verifier::spinoff_prover]
pub proof fn lemma_set_line_parses(
    key: Seq<u8>,
    flags: Seq<u8>,
    exptime: Seq<u8>,
    blen: Seq<u8>,
    data: Seq<u8>,
    rest: Seq<u8>,
)
    requires
        key.len() > 0,
        valid_utf8(key),
        forall|i: int| 0 <= i < key.len() ==> is_word_byte(#[trigger] key[i]),
        is_dec_digits(flags),
        dec_value(flags) <= u16::MAX,
        is_dec_digits(exptime),
        dec_value(exptime) <= u32::MAX,
        is_dec_digits(blen),
        dec_value(blen) <= u64::MAX,
        data.len() == dec_value(blen),
    ensures
        ({
            let wire = set_keyword() + seq![BYTE_SPACE] + key + seq![BYTE_SPACE] + flags + seq![
                BYTE_SPACE,
            ] + exptime + seq![BYTE_SPACE] + blen + crlf() + data + crlf();
            parse_cmd(wire + rest) == (ParseOutcome::Parsed {
                cmd: CmdModel::SetCmd {
                    instr: SetInstr::Store,
                    key: decode_utf8(key),
                    flags: dec_value(flags) as u16,
                    exptime: dec_value(exptime) as u32,
                    data,
                    noreply: false,
                },
                used: wire.len() as int,
            })
        }),
{
    reveal(parse_cmd);
    reveal(parse_set_key);
    reveal(parse_set_flags);
    reveal(parse_set_exptime);
    reveal(parse_set_bytelen);
    reveal(parse_set_payload);
    let wire = set_keyword() + seq![BYTE_SPACE] + key + seq![BYTE_SPACE] + flags + seq![
        BYTE_SPACE,
    ] + exptime + seq![BYTE_SPACE] + blen + crlf() + data + crlf();
    let s = wire + rest;
    assert(forall|i: int| 0 <= i < flags.len() ==> is_word_byte(#[trigger] flags[i]));
    assert(forall|i: int| 0 <= i < exptime.len() ==> is_word_byte(#[trigger] exptime[i]));
    assert(forall|i: int| 0 <= i < blen.len() ==> is_word_byte(#[trigger] blen[i]));
    assert(forall|i: int| 0 <= i < flags.len() ==> #[trigger] flags[i] < 0x80);
    lemma_ascii_valid_utf8(flags);
    assert(forall|i: int| 0 <= i < exptime.len() ==> #[trigger] exptime[i] < 0x80);
    lemma_ascii_valid_utf8(exptime);
    assert(forall|i: int| 0 <= i < blen.len() ==> #[trigger] blen[i] < 0x80);
    lemma_ascii_valid_utf8(blen);
    assert(forall|i: int|
        0 <= i < set_keyword().len() ==> is_word_byte(#[trigger] set_keyword()[i]));
    assert(forall|i: int| 0 <= i < set_keyword().len() ==> #[trigger] set_keyword()[i] < 0x80);
    lemma_ascii_valid_utf8(set_keyword());

    let t1 = key + seq![BYTE_SPACE] + flags + seq![BYTE_SPACE] + exptime + seq![BYTE_SPACE] + blen
        + crlf() + data + crlf() + rest;
    assert(s =~= set_keyword() + seq![BYTE_SPACE] + t1);
    lemma_tok_word_space(set_keyword(), t1);
    assert(s.skip(4) =~= t1);

    let t2 = flags + seq![BYTE_SPACE] + exptime + seq![BYTE_SPACE] + blen + crlf() + data + crlf()
        + rest;
    assert(t1 =~= key + seq![BYTE_SPACE] + t2);
    lemma_tok_word_space(key, t2);
    assert(t1.skip(key.len() as int + 1) =~= t2);

    let t3 = exptime + seq![BYTE_SPACE] + blen + crlf() + data + crlf() + rest;
    assert(t2 =~= flags + seq![BYTE_SPACE] + t3);
    lemma_tok_word_space(flags, t3);
    assert(t2.skip(flags.len() as int + 1) =~= t3);

    let t4 = blen + crlf() + data + crlf() + rest;
    assert(t3 =~= exptime + seq![BYTE_SPACE] + t4);
    lemma_tok_word_space(exptime, t4);
    assert(t3.skip(exptime.len() as int + 1) =~= t4);

    let t5 = data + crlf() + rest;
    assert(t4 =~= blen + crlf() + t5);
    lemma_tok_word_crlf(blen, t5);
    assert(t4.skip(blen.len() as int + 2) =~= t5);

    let n = dec_value(blen) as int;
    assert(t5.len() >= n + 2);
    assert(t5[n] == BYTE_CARRIAGE_RETURN);
    assert(t5[n + 1] == BYTE_LINE_FEED);
    assert(t5.take(n) =~= data);
    assert(parse_set_payload(t5, decode_utf8(key), (dec_value(flags) as u16, dec_value(exptime) as u32), n, false)
        == (ParseOutcome::Parsed {
        cmd: CmdModel::SetCmd {
            instr: SetInstr::Store,
            key: decode_utf8(key),
            flags: dec_value(flags) as u16,
            exptime: dec_value(exptime) as u32,
            data,
            noreply: false,
        },
        used: n + 2,
    }));
    assert(wire.len() == 4 + (key.len() + 1) + (flags.len() + 1) + (exptime.len() + 1) + (blen.len()
        + 2) + n + 2);
}

/// Every byte of the UTF-8 encoding of characters other than space and
/// carriage return is a word byte: a one-byte character encodes itself, and
/// the bytes of a multi-byte encoding all lie at or above 0x80. The
/// encoding is also at least one byte per character.
proof fn lemma_encode_word_bytes(chars: Seq<char>)
    requires
        forall|i: int| 0 <= i < chars.len() ==> #[trigger] chars[i] != ' ' && chars[i] != '\r',
    ensures
        forall|i: int|
            0 <= i < encode_utf8(chars).len() ==> is_word_byte(#[trigger] encode_utf8(chars)[i]),
        encode_utf8(chars).len() >= chars.len(),
    decreases chars.len(),
{
    if chars.len() > 0 {
        let c = chars[0];
        vstd::utf8::char_is_scalar(c);
        let sc = c as u32;
        let eb = vstd::utf8::encode_scalar(sc);
        assert forall|k: int| 0 <= k < eb.len() implies is_word_byte(#[trigger] eb[k]) by {
            if vstd::utf8::has_width_1_encoding(sc) {
                let b = vstd::utf8::leading_byte_width_1(sc);
                assert(eb[k] == b);
                assert(b == sc as u8 && (b == 32 ==> sc == 32) && (b == 13 ==> sc == 13))
                    by (bit_vector)
                    requires
                        sc <= 0x7F,
                        b == (sc & 0x7F) as u8,
                ;
                if b == BYTE_SPACE {
                    vstd::utf8::char_u32_cast(c, 32);
                    assert(c == ' ');
                }
                if b == BYTE_CARRIAGE_RETURN {
                    vstd::utf8::char_u32_cast(c, 13);
                    assert(c == '\r');
                }
            } else {
                let x1: u8 = ((sc >> 6) & 0x1F) as u8;
                let x2: u8 = ((sc >> 12) & 0x0F) as u8;
                let x3: u8 = ((sc >> 18) & 0x7) as u8;
                let y1: u8 = (sc & 0x3F) as u8;
                let y2: u8 = ((sc >> 6) & 0x3F) as u8;
                let y3: u8 = ((sc >> 12) & 0x3F) as u8;
                assert(0xC0u8 | x1 >= 0x80) by (bit_vector);
                assert(0xE0u8 | x2 >= 0x80) by (bit_vector);
                assert(0xF0u8 | x3 >= 0x80) by (bit_vector);
                assert(0x80u8 | y1 >= 0x80) by (bit_vector);
                assert(0x80u8 | y2 >= 0x80) by (bit_vector);
                assert(0x80u8 | y3 >= 0x80) by (bit_vector);
            }
        }
        lemma_encode_word_bytes(chars.drop_first());
        let tail = encode_utf8(chars.drop_first());
        assert(encode_utf8(chars) == eb + tail);
        assert forall|i: int|
            0 <= i < encode_utf8(chars).len() implies is_word_byte(
            #[trigger] encode_utf8(chars)[i],
        ) by {
            if i < eb.len() {
                assert(encode_utf8(chars)[i] == eb[i]);
            } else {
                assert(encode_utf8(chars)[i] == tail[i - eb.len()]);
            }
        }
    }
}

/// Round trip: serializing a `VALUE` reply and reading those bytes back
/// through the reply grammar reproduces the key, the flags and the payload
/// exactly. The payload may hold any bytes, carriage returns and line feeds
/// included; the key may be any nonempty text without space or carriage
/// return (an empty key's slot would merge with the flags word on the way
/// back, so it is left out).
#[verifier::rlimit(100)]
#[verifier::spinoff_prover]
pub proof fn lemma_value_round_trip(key: Seq<char>, flags: u16, data: Seq<u8>, rest: Seq<u8>)
    requires
        key.len() > 0,
        forall|i: int| 0 <= i < key.len() ==> #[trigger] key[i] != ' ' && key[i] != '\r',
        data.len() <= u64::MAX,
    ensures
        parse_value_resp(value_resp_bytes(key, flags, data) + rest) == Some(
            (key, flags, data, value_resp_bytes(key, flags, data).len() as int),
        ),
{
    let kb = encode_utf8(key);
    vstd::utf8::encode_utf8_decode_utf8(key);
    vstd::utf8::encode_utf8_valid_utf8(key);
    lemma_encode_word_bytes(key);
    let fb = dec_repr(flags as nat);
    let lb = dec_repr(data.len() as nat);
    lemma_dec_repr_value(flags as nat);
    lemma_dec_repr_value(data.len() as nat);
    assert(forall|i: int| 0 <= i < fb.len() ==> is_word_byte(#[trigger] fb[i]));
    assert(forall|i: int| 0 <= i < lb.len() ==> is_word_byte(#[trigger] lb[i]));

    let s = value_resp_bytes(key, flags, data) + rest;
    let t1 = kb + seq![BYTE_SPACE] + fb + seq![BYTE_SPACE] + lb + crlf() + data + crlf()
        + end_line_bytes() + rest;
    assert(s =~= value_keyword() + seq![BYTE_SPACE] + t1);
    assert(forall|i: int|
        0 <= i < value_keyword().len() ==> is_word_byte(#[trigger] value_keyword()[i]));
    lemma_tok_word_space(value_keyword(), t1);
    assert(s.skip(6) =~= t1);

    let t2 = fb + seq![BYTE_SPACE] + lb + crlf() + data + crlf() + end_line_bytes() + rest;
    assert(t1 =~= kb + seq![BYTE_SPACE] + t2);
    lemma_tok_word_space(kb, t2);
    assert(t1.skip(kb.len() as int + 1) =~= t2);

    let t3 = lb + crlf() + data + crlf() + end_line_bytes() + rest;
    assert(t2 =~= fb + seq![BYTE_SPACE] + t3);
    lemma_tok_word_space(fb, t3);
    assert(t2.skip(fb.len() as int + 1) =~= t3);

    let t4 = data + crlf() + end_line_bytes() + rest;
    assert(t3 =~= lb + crlf() + t4);
    lemma_tok_word_crlf(lb, t4);
    assert(t3.skip(lb.len() as int + 2) =~= t4);

    assert(s.skip(6 + (kb.len() as int + 1)) =~= t2);
    assert(s.skip(6 + (kb.len() as int + 1) + (fb.len() as int + 1)) =~= t3);
    assert(s.skip(6 + (kb.len() as int + 1) + (fb.len() as int + 1) + (lb.len() as int + 2))
        =~= t4);
    let n = data.len() as int;
    assert(t4.len() >= n + 7);
    assert(t4.subrange(n, n + 2) =~= crlf());
    assert(t4.subrange(n + 2, n + 7) =~= end_line_bytes());
    assert(t4.take(n) =~= data);
    assert(decode_utf8(kb) == key);
    assert(value_resp_bytes(key, flags, data).len() == 6 + (kb.len() + 1) + (fb.len() + 1) + (
    lb.len() + 2) + n + 7);
}

/// Two statistics snapshots taken from the same engine state, without
/// intervening I/O, hold equal counters.
pub proof fn lemma_stats_snapshot_idempotent<T: ByteStream>(
    t: &TcpTransport<T>,
    r1: TransportStats,
    r2: TransportStats,
)
    requires
        r1.bytes_read == t@.bytes_read,
        r1.bytes_written == t@.bytes_written,
        r2.bytes_read == t@.bytes_read,
        r2.bytes_written == t@.bytes_written,
    ensures
        r1 == r2,
{
}

} // verus!
