//! The wire grammar: what the byte stream must look like, and what each
//! parse or serialization step means, stated as functions over `Seq<u8>`.
//!
//! The executable transport in `transport` is verified against these
//! definitions, so they are the single description of the protocol's framing:
//! space-delimited words, CRLF line termination, and length-prefixed binary
//! payloads.

use vstd::prelude::*;
use vstd::utf8::valid_utf8;
use vstd::utf8::decode_utf8;
use crate::cmd::CmdModel;
use crate::cmd::RespModel;
use crate::cmd::SetInstr;
use crate::errors::TcpTransportError;

verus! {

/// The word separator.
pub const BYTE_SPACE: u8 = 32;

/// First byte of the line terminator.
pub const BYTE_CARRIAGE_RETURN: u8 = 13;

/// Second byte of the line terminator.
pub const BYTE_LINE_FEED: u8 = 10;

/// A byte that may stand inside a word: anything but the separator and the
/// carriage return. (A bare line feed is an ordinary word byte; only the
/// two-byte sequence CR LF terminates a line.)
pub open spec fn is_word_byte(b: u8) -> bool {
    b != BYTE_SPACE && b != BYTE_CARRIAGE_RETURN
}

/// Length of the run of leading space bytes.
pub open spec fn space_count(s: Seq<u8>) -> int
    decreases s.len(),
{
    if s.len() > 0 && s[0] == BYTE_SPACE {
        1 + space_count(s.skip(1))
    } else {
        0
    }
}

/// Length of the run of leading word bytes.
pub open spec fn word_span(s: Seq<u8>) -> int
    decreases s.len(),
{
    if s.len() > 0 && is_word_byte(s[0]) {
        1 + word_span(s.skip(1))
    } else {
        0
    }
}

pub proof fn lemma_space_count_le(s: Seq<u8>)
    ensures
        0 <= space_count(s) <= s.len(),
    decreases s.len(),
{
    if s.len() > 0 && s[0] == BYTE_SPACE {
        lemma_space_count_le(s.skip(1));
    }
}

pub proof fn lemma_word_span_le(s: Seq<u8>)
    ensures
        0 <= word_span(s) <= s.len(),
    decreases s.len(),
{
    if s.len() > 0 && is_word_byte(s[0]) {
        lemma_word_span_le(s.skip(1));
    }
}

/// `space_count` is pinned down by its first-run characterization.
pub proof fn lemma_space_count_is(s: Seq<u8>, j: int)
    requires
        0 <= j <= s.len(),
        forall|i: int| 0 <= i < j ==> s[i] == BYTE_SPACE,
        j == s.len() || s[j] != BYTE_SPACE,
    ensures
        space_count(s) == j,
    decreases j,
{
    if j == 0 {
    } else {
        assert(s[0] == BYTE_SPACE);
        assert(forall|i: int| 0 <= i < j - 1 ==> s.skip(1)[i] == BYTE_SPACE);
        lemma_space_count_is(s.skip(1), j - 1);
    }
}

/// `word_span` is pinned down by its first-run characterization.
pub proof fn lemma_word_span_is(s: Seq<u8>, j: int)
    requires
        0 <= j <= s.len(),
        forall|i: int| 0 <= i < j ==> is_word_byte(s[i]),
        j == s.len() || !is_word_byte(s[j]),
    ensures
        word_span(s) == j,
    decreases j,
{
    if j == 0 {
    } else {
        assert(is_word_byte(s[0]));
        assert(forall|i: int| 0 <= i < j - 1 ==> is_word_byte(s.skip(1)[i]));
        lemma_word_span_is(s.skip(1), j - 1);
    }
}

/// What reading one word off the stream yields.
pub enum TokOutcome {
    /// The stream ended before the word was terminated.
    Truncated,
    /// A carriage return was not followed by a line feed; `used` bytes,
    /// including both offending bytes, were consumed.
    BadLine { used: int },
    /// A word: its bytes, whether it was terminated by the line terminator
    /// (rather than a space), and how many bytes were consumed in total,
    /// terminator included.
    Token { word: Seq<u8>, eol: bool, used: int },
}

/// One step of the tokenizer: skip leading spaces, collect word bytes, then
/// classify the delimiter that follows. Opaque: proofs that need its
/// definition reveal it; everything else works from established outcomes.
#[verifier::opaque]
pub open spec fn tokenize_word(s: Seq<u8>) -> TokOutcome {
    let sp = space_count(s);
    let t = s.skip(sp);
    let wl = word_span(t);
    let word = t.take(wl);
    let rest = t.skip(wl);
    if rest.len() == 0 {
        TokOutcome::Truncated
    } else if rest[0] == BYTE_CARRIAGE_RETURN {
        if rest.len() < 2 {
            TokOutcome::Truncated
        } else if rest[1] == BYTE_LINE_FEED {
            TokOutcome::Token { word, eol: true, used: sp + wl + 2 }
        } else {
            TokOutcome::BadLine { used: sp + wl + 2 }
        }
    } else {
        TokOutcome::Token { word, eol: false, used: sp + wl + 1 }
    }
}

/// Whatever `tokenize_word` consumes stays within the input, and consuming
/// nothing is impossible: every token costs at least its delimiter.
pub proof fn lemma_tokenize_word_used(s: Seq<u8>)
    ensures
        match tokenize_word(s) {
            TokOutcome::Truncated => true,
            TokOutcome::BadLine { used } => 2 <= used <= s.len(),
            TokOutcome::Token { word, eol, used } => {
                &&& 1 <= used <= s.len()
                &&& word.len() <= used
                &&& (eol ==> 2 <= used)
            },
        },
{
    reveal(tokenize_word);
    lemma_space_count_le(s);
    let sp = space_count(s);
    let t = s.skip(sp);
    lemma_word_span_le(t);
}

/// What reading a whole line as words yields.
pub enum LineOutcome {
    Truncated,
    BadLine,
    /// The words of the line, empty words dropped, and the total number of
    /// bytes consumed through the terminator.
    Words { words: Seq<Seq<u8>>, used: int },
}

/// Words of one line: tokenize until the end-of-line token, dropping empty
/// words (a trailing space right before the terminator).
pub open spec fn line_words(s: Seq<u8>) -> LineOutcome
    decreases s.len(),
        via line_words_decreases
{
    match tokenize_word(s) {
        TokOutcome::Truncated => LineOutcome::Truncated,
        TokOutcome::BadLine { used } => LineOutcome::BadLine,
        TokOutcome::Token { word, eol, used } => {
            if eol {
                LineOutcome::Words {
                    words: if word.len() == 0 { Seq::empty() } else { seq![word] },
                    used,
                }
            } else {
                match line_words(s.skip(used)) {
                    LineOutcome::Truncated => LineOutcome::Truncated,
                    LineOutcome::BadLine => LineOutcome::BadLine,
                    LineOutcome::Words { words, used: tail_used } => LineOutcome::Words {
                        words: if word.len() == 0 { words } else { seq![word] + words },
                        used: used + tail_used,
                    },
                }
            }
        },
    }
}

#[via_fn]
proof fn line_words_decreases(s: Seq<u8>) {
    lemma_tokenize_word_used(s);
}

/* Decimal fields */

/// An ASCII decimal digit.
pub open spec fn is_dec_digit(b: u8) -> bool {
    48 <= b <= 57
}

/// A nonempty, all-digit byte sequence: the only shape a numeric field may
/// have. No sign, no surrounding whitespace.
pub open spec fn is_dec_digits(s: Seq<u8>) -> bool {
    s.len() > 0 && (forall|i: int| 0 <= i < s.len() ==> is_dec_digit(#[trigger] s[i]))
}

/// The number denoted by a digit sequence, most significant digit first.
pub open spec fn dec_value(s: Seq<u8>) -> nat
    decreases s.len(),
{
    if s.len() == 0 {
        0
    } else {
        (dec_value(s.drop_last()) * 10 + (s.last() - 48)) as nat
    }
}

/// The canonical decimal rendering of a number: no sign, no leading zeros
/// (except for the single digit `0` itself).
pub open spec fn dec_repr(v: nat) -> Seq<u8>
    decreases v,
{
    if v < 10 {
        seq![(48 + v) as u8]
    } else {
        dec_repr(v / 10).push((48 + v % 10) as u8)
    }
}

/// The canonical rendering denotes the number it was made from, and is made
/// of digits.
pub proof fn lemma_dec_repr_value(v: nat)
    ensures
        is_dec_digits(dec_repr(v)),
        dec_value(dec_repr(v)) == v,
        dec_repr(v).len() >= 1,
    decreases v,
{
    if v < 10 {
        let r = dec_repr(v);
        assert(r =~= seq![(48 + v) as u8]);
        assert(r.drop_last() =~= Seq::<u8>::empty());
        assert(dec_value(Seq::<u8>::empty()) == 0);
        assert(dec_value(r) == v);
    } else {
        lemma_dec_repr_value(v / 10);
        let r = dec_repr(v);
        assert(r.drop_last() =~= dec_repr(v / 10));
        assert(r.last() == (48 + v % 10) as u8);
        assert(dec_value(r) == (v / 10) * 10 + v % 10);
        assert((v / 10) * 10 + v % 10 == v) by (nonlinear_arith);
    }
}

/* Command grammar */

/// The bytes of the keyword `get`.
pub open spec fn get_keyword() -> Seq<u8> {
    seq![103u8, 101u8, 116u8]
}

/// The bytes of the keyword `set`.
pub open spec fn set_keyword() -> Seq<u8> {
    seq![115u8, 101u8, 116u8]
}

/// The bytes of the keyword `stats`.
pub open spec fn stats_keyword() -> Seq<u8> {
    seq![115u8, 116u8, 97u8, 116u8, 115u8]
}

/// The bytes of the literal token `noreply`.
pub open spec fn noreply_word() -> Seq<u8> {
    seq![110u8, 111u8, 114u8, 101u8, 112u8, 108u8, 121u8]
}

/// What reading one command off the stream yields: either a command and the
/// exact number of bytes it consumed, or the first error encountered.
pub enum ParseOutcome {
    Parsed { cmd: CmdModel, used: int },
    Failed { err: TcpTransportError },
}

/// A parse of a suffix, moved back to the whole input: its consumed count
/// grows by the `n` bytes that came before the suffix.
pub open spec fn shifted(o: ParseOutcome, n: int) -> ParseOutcome {
    match o {
        ParseOutcome::Parsed { cmd, used } => ParseOutcome::Parsed { cmd, used: used + n },
        ParseOutcome::Failed { err } => ParseOutcome::Failed { err },
    }
}

/// The whole `read_cmd` grammar: one keyword word dispatches to the verb's
/// own tail grammar. `stats` takes no further words; an unknown keyword is
/// `InvalidCmd`, a keyword that is not text is `Utf8Error`.
#[verifier::opaque]
pub open spec fn parse_cmd(s: Seq<u8>) -> ParseOutcome {
    match tokenize_word(s) {
        TokOutcome::Truncated => ParseOutcome::Failed { err: TcpTransportError::StreamReadError },
        TokOutcome::BadLine { .. } => ParseOutcome::Failed { err: TcpTransportError::LineReadError },
        TokOutcome::Token { word, eol, used } => {
            if !valid_utf8(word) {
                ParseOutcome::Failed { err: TcpTransportError::Utf8Error }
            } else if word == get_keyword() {
                shifted(parse_get_tail(s.skip(used)), used)
            } else if word == set_keyword() {
                shifted(parse_set_key(s.skip(used)), used)
            } else if word == stats_keyword() {
                ParseOutcome::Parsed { cmd: CmdModel::Stats, used }
            } else {
                ParseOutcome::Failed { err: TcpTransportError::InvalidCmd }
            }
        },
    }
}

/// After `get`: exactly one word, which must be text and end the line.
#[verifier::opaque]
pub open spec fn parse_get_tail(t: Seq<u8>) -> ParseOutcome {
    match tokenize_word(t) {
        TokOutcome::Truncated => ParseOutcome::Failed { err: TcpTransportError::StreamReadError },
        TokOutcome::BadLine { .. } => ParseOutcome::Failed { err: TcpTransportError::LineReadError },
        TokOutcome::Token { word, eol, used } => {
            if !valid_utf8(word) {
                ParseOutcome::Failed { err: TcpTransportError::Utf8Error }
            } else if !eol {
                ParseOutcome::Failed { err: TcpTransportError::CommandParseError }
            } else {
                ParseOutcome::Parsed { cmd: CmdModel::Get { key: decode_utf8(word) }, used }
            }
        },
    }
}

/// After `set`: the key word, which must not end the line.
#[verifier::opaque]
pub open spec fn parse_set_key(t: Seq<u8>) -> ParseOutcome {
    match tokenize_word(t) {
        TokOutcome::Truncated => ParseOutcome::Failed { err: TcpTransportError::StreamReadError },
        TokOutcome::BadLine { .. } => ParseOutcome::Failed { err: TcpTransportError::LineReadError },
        TokOutcome::Token { word, eol, used } => {
            if eol {
                ParseOutcome::Failed { err: TcpTransportError::CommandParseError }
            } else if !valid_utf8(word) {
                ParseOutcome::Failed { err: TcpTransportError::Utf8Error }
            } else {
                shifted(parse_set_flags(t.skip(used), decode_utf8(word)), used)
            }
        },
    }
}

/// The flags word: a decimal that fits `u16`, not at end of line.
#[verifier::opaque]
pub open spec fn parse_set_flags(t: Seq<u8>, key: Seq<char>) -> ParseOutcome {
    match tokenize_word(t) {
        TokOutcome::Truncated => ParseOutcome::Failed { err: TcpTransportError::StreamReadError },
        TokOutcome::BadLine { .. } => ParseOutcome::Failed { err: TcpTransportError::LineReadError },
        TokOutcome::Token { word, eol, used } => {
            if eol {
                ParseOutcome::Failed { err: TcpTransportError::CommandParseError }
            } else if !valid_utf8(word) {
                ParseOutcome::Failed { err: TcpTransportError::Utf8Error }
            } else if !is_dec_digits(word) || dec_value(word) > u16::MAX {
                ParseOutcome::Failed { err: TcpTransportError::NumberParseError }
            } else {
                shifted(parse_set_exptime(t.skip(used), key, dec_value(word) as u16), used)
            }
        },
    }
}

/// The exptime word: a decimal that fits `u32`, not at end of line.
#[verifier::opaque]
pub open spec fn parse_set_exptime(t: Seq<u8>, key: Seq<char>, flags: u16) -> ParseOutcome {
    match tokenize_word(t) {
        TokOutcome::Truncated => ParseOutcome::Failed { err: TcpTransportError::StreamReadError },
        TokOutcome::BadLine { .. } => ParseOutcome::Failed { err: TcpTransportError::LineReadError },
        TokOutcome::Token { word, eol, used } => {
            if eol {
                ParseOutcome::Failed { err: TcpTransportError::CommandParseError }
            } else if !valid_utf8(word) {
                ParseOutcome::Failed { err: TcpTransportError::Utf8Error }
            } else if !is_dec_digits(word) || dec_value(word) > u32::MAX {
                ParseOutcome::Failed { err: TcpTransportError::NumberParseError }
            } else {
                shifted(parse_set_bytelen(t.skip(used), key, (flags, dec_value(word) as u32)), used)
            }
        },
    }
}

/// The byte-length word: a decimal that fits `u64`. If it ends the line the
/// payload follows at once and there is no `noreply` marker; otherwise one
/// final word is read by `parse_set_noreply`.
#[verifier::opaque]
pub open spec fn parse_set_bytelen(t: Seq<u8>, key: Seq<char>, flags_exptime: (u16, u32)) -> ParseOutcome {
    match tokenize_word(t) {
        TokOutcome::Truncated => ParseOutcome::Failed { err: TcpTransportError::StreamReadError },
        TokOutcome::BadLine { .. } => ParseOutcome::Failed { err: TcpTransportError::LineReadError },
        TokOutcome::Token { word, eol, used } => {
            if !valid_utf8(word) {
                ParseOutcome::Failed { err: TcpTransportError::Utf8Error }
            } else if !is_dec_digits(word) || dec_value(word) > u64::MAX {
                ParseOutcome::Failed { err: TcpTransportError::NumberParseError }
            } else if eol {
                shifted(
                    parse_set_payload(t.skip(used), key, flags_exptime, dec_value(word) as int, false),
                    used,
                )
            } else {
                shifted(
                    parse_set_noreply(t.skip(used), key, flags_exptime, dec_value(word) as int),
                    used,
                )
            }
        },
    }
}

/// The optional fifth word: it must end the line; `noreply` is set exactly
/// when it is the literal token `noreply` (an empty word, from a trailing
/// space, just leaves `noreply` unset).
#[verifier::opaque]
pub open spec fn parse_set_noreply(t: Seq<u8>, key: Seq<char>, flags_exptime: (u16, u32), n: int) -> ParseOutcome {
    match tokenize_word(t) {
        TokOutcome::Truncated => ParseOutcome::Failed { err: TcpTransportError::StreamReadError },
        TokOutcome::BadLine { .. } => ParseOutcome::Failed { err: TcpTransportError::LineReadError },
        TokOutcome::Token { word, eol, used } => {
            if !eol {
                ParseOutcome::Failed { err: TcpTransportError::CommandParseError }
            } else if !valid_utf8(word) {
                ParseOutcome::Failed { err: TcpTransportError::Utf8Error }
            } else {
                shifted(
                    parse_set_payload(t.skip(used), key, flags_exptime, n, word == noreply_word()),
                    used,
                )
            }
        },
    }
}

/// The binary payload: exactly `n` raw bytes (never word-tokenized), then
/// the two terminator bytes. A stream that runs out first is a read error;
/// two bytes other than CR LF after the payload are a parse error.
#[verifier::opaque]
pub open spec fn parse_set_payload(t: Seq<u8>, key: Seq<char>, flags_exptime: (u16, u32), n: int, noreply: bool) -> ParseOutcome {
    if t.len() < n + 2 {
        ParseOutcome::Failed { err: TcpTransportError::StreamReadError }
    } else if t[n] == BYTE_CARRIAGE_RETURN && t[n + 1] == BYTE_LINE_FEED {
        ParseOutcome::Parsed {
            cmd: CmdModel::SetCmd {
                instr: SetInstr::Store,
                key,
                flags: flags_exptime.0,
                exptime: flags_exptime.1,
                data: t.take(n),
                noreply,
            },
            used: n + 2,
        }
    } else {
        ParseOutcome::Failed { err: TcpTransportError::CommandParseError }
    }
}

/// Tokenizing a nonempty word followed by a space yields exactly that word.
pub proof fn lemma_tok_word_space(w: Seq<u8>, tail: Seq<u8>)
    requires
        w.len() > 0,
        forall|i: int| 0 <= i < w.len() ==> is_word_byte(#[trigger] w[i]),
    ensures
        tokenize_word(w + seq![BYTE_SPACE] + tail) == (TokOutcome::Token {
            word: w,
            eol: false,
            used: w.len() + 1int,
        }),
{
    reveal(tokenize_word);
    let s = w + seq![BYTE_SPACE] + tail;
    assert(forall|i: int| 0 <= i < w.len() ==> s[i] == w[i]);
    assert(s[w.len() as int] == BYTE_SPACE);
    assert(s[0] != BYTE_SPACE);
    lemma_space_count_is(s, 0);
    assert(s.skip(0) =~= s);
    lemma_word_span_is(s, w.len() as int);
    assert(s.take(w.len() as int) =~= w);
    assert(s.skip(w.len() as int)[0] == s[w.len() as int]);
}

/// Tokenizing a word followed by the line terminator yields that word with
/// the end-of-line mark; the word here may be empty (a trailing space).
pub proof fn lemma_tok_word_crlf(w: Seq<u8>, tail: Seq<u8>)
    requires
        forall|i: int| 0 <= i < w.len() ==> is_word_byte(#[trigger] w[i]),
        w.len() == 0 || w[0] != BYTE_SPACE,
    ensures
        tokenize_word(w + crlf() + tail) == (TokOutcome::Token {
            word: w,
            eol: true,
            used: w.len() + 2int,
        }),
{
    reveal(tokenize_word);
    let s = w + crlf() + tail;
    assert(forall|i: int| 0 <= i < w.len() ==> s[i] == w[i]);
    assert(s[w.len() as int] == BYTE_CARRIAGE_RETURN);
    assert(s[w.len() as int + 1] == BYTE_LINE_FEED);
    if w.len() == 0 {
        lemma_space_count_is(s, 0);
    } else {
        assert(s[0] != BYTE_SPACE);
        lemma_space_count_is(s, 0);
    }
    assert(s.skip(0) =~= s);
    lemma_word_span_is(s, w.len() as int);
    assert(s.take(w.len() as int) =~= w);
    assert(s.skip(w.len() as int)[0] == s[w.len() as int]);
    assert(s.skip(w.len() as int)[1] == s[w.len() as int + 1]);
}

/* Response serialization */

/// The two terminator bytes CR LF.
pub open spec fn crlf() -> Seq<u8> {
    seq![BYTE_CARRIAGE_RETURN, BYTE_LINE_FEED]
}

/// The bytes of the line `ERROR\r\n`.
pub open spec fn error_resp_bytes() -> Seq<u8> {
    seq![69u8, 82u8, 82u8, 79u8, 82u8, 13u8, 10u8]
}

/// The bytes of the line `STORED\r\n`.
pub open spec fn stored_resp_bytes() -> Seq<u8> {
    seq![83u8, 84u8, 79u8, 82u8, 69u8, 68u8, 13u8, 10u8]
}

/// The bytes of the line `END\r\n`.
pub open spec fn end_line_bytes() -> Seq<u8> {
    seq![69u8, 78u8, 68u8, 13u8, 10u8]
}

/// One `STAT <key> <value>\r\n` line.
pub open spec fn stat_line_bytes(entry: (Seq<char>, Seq<char>)) -> Seq<u8> {
    seq![83u8, 84u8, 65u8, 84u8, 32u8] + vstd::utf8::encode_utf8(entry.0) + seq![32u8]
        + vstd::utf8::encode_utf8(entry.1) + crlf()
}

/// All stat lines in their given order.
pub open spec fn stat_lines_bytes(entries: Seq<(Seq<char>, Seq<char>)>) -> Seq<u8>
    decreases entries.len(),
{
    if entries.len() == 0 {
        Seq::empty()
    } else {
        stat_line_bytes(entries[0]) + stat_lines_bytes(entries.drop_first())
    }
}

/// Extending the entries by one appends exactly that entry's line.
pub proof fn lemma_stat_lines_snoc(entries: Seq<(Seq<char>, Seq<char>)>, i: int)
    requires
        0 <= i < entries.len(),
    ensures
        stat_lines_bytes(entries.take(i + 1)) == stat_lines_bytes(entries.take(i)) + stat_line_bytes(
            entries[i],
        ),
    decreases i,
{
    if i == 0 {
        assert(entries.take(0) =~= Seq::<(Seq<char>, Seq<char>)>::empty());
        assert(entries.take(1).drop_first() =~= Seq::<(Seq<char>, Seq<char>)>::empty());
        assert(entries.take(1)[0] == entries[0]);
        assert(stat_lines_bytes(Seq::<(Seq<char>, Seq<char>)>::empty())
            == Seq::<u8>::empty());
        assert(stat_lines_bytes(entries.take(1)) =~= stat_line_bytes(entries[0]));
        assert(stat_lines_bytes(entries.take(0)) + stat_line_bytes(entries[0]) =~= stat_line_bytes(
            entries[0],
        ));
    } else {
        lemma_stat_lines_snoc(entries.drop_first(), i - 1);
        assert(entries.take(i + 1).drop_first() =~= entries.drop_first().take(i));
        assert(entries.take(i).drop_first() =~= entries.drop_first().take(i - 1));
        assert(entries.drop_first()[i - 1] == entries[i]);
        assert(entries.take(i + 1)[0] == entries[0]);
        assert(entries.take(i)[0] == entries[0]);
        assert(stat_line_bytes(entries[0]) + (stat_lines_bytes(entries.drop_first().take(i - 1))
            + stat_line_bytes(entries[i])) =~= (stat_line_bytes(entries[0]) + stat_lines_bytes(
            entries.drop_first().take(i - 1),
        )) + stat_line_bytes(entries[i]));
    }
}

/// All stat lines in their given order, then the `END` line.
pub open spec fn stats_resp_bytes(entries: Seq<(Seq<char>, Seq<char>)>) -> Seq<u8> {
    stat_lines_bytes(entries) + end_line_bytes()
}

/// A `VALUE` reply: header line with key, flags and payload length, the raw
/// payload, a terminator, and the `END` line.
pub open spec fn value_resp_bytes(key: Seq<char>, flags: u16, data: Seq<u8>) -> Seq<u8> {
    seq![86u8, 65u8, 76u8, 85u8, 69u8, 32u8] + vstd::utf8::encode_utf8(key) + seq![32u8]
        + dec_repr(flags as nat) + seq![32u8] + dec_repr(data.len() as nat) + crlf() + data + crlf()
        + end_line_bytes()
}

/// The bytes of the keyword `VALUE`.
pub open spec fn value_keyword() -> Seq<u8> {
    seq![86u8, 65u8, 76u8, 85u8, 69u8]
}

/// What reading one `VALUE` reply off a byte sequence yields: the key, the
/// flags, the payload and the bytes consumed through the closing `END`
/// line; or nothing when the bytes do not begin with a well-formed reply.
pub open spec fn parse_value_resp(s: Seq<u8>) -> Option<(Seq<char>, u16, Seq<u8>, int)> {
    match tokenize_word(s) {
        TokOutcome::Token { word: w0, eol: false, used: u0 } => {
            if w0 != value_keyword() {
                None
            } else {
                match tokenize_word(s.skip(u0)) {
                    TokOutcome::Token { word: kw, eol: false, used: u1 } => {
                        if !valid_utf8(kw) {
                            None
                        } else {
                            match tokenize_word(s.skip(u0 + u1)) {
                                TokOutcome::Token { word: fw, eol: false, used: u2 } => {
                                    if !is_dec_digits(fw) || dec_value(fw) > u16::MAX {
                                        None
                                    } else {
                                        match tokenize_word(s.skip(u0 + u1 + u2)) {
                                            TokOutcome::Token { word: lw, eol: true, used: u3 } => {
                                                if !is_dec_digits(lw) || dec_value(lw) > u64::MAX {
                                                    None
                                                } else {
                                                    let n = dec_value(lw) as int;
                                                    let t = s.skip(u0 + u1 + u2 + u3);
                                                    if t.len() < n + 7 {
                                                        None
                                                    } else if t.subrange(n, n + 2) == crlf()
                                                        && t.subrange(n + 2, n + 7)
                                                        == end_line_bytes() {
                                                        Some(
                                                            (
                                                                decode_utf8(kw),
                                                                dec_value(fw) as u16,
                                                                t.take(n),
                                                                u0 + u1 + u2 + u3 + n + 7,
                                                            ),
                                                        )
                                                    } else {
                                                        None
                                                    }
                                                }
                                            },
                                            _ => None,
                                        }
                                    }
                                },
                                _ => None,
                            }
                        }
                    },
                    _ => None,
                }
            }
        },
        _ => None,
    }
}

/// The exact wire bytes of each response variant.
pub open spec fn resp_bytes(r: RespModel) -> Seq<u8> {
    match r {
        RespModel::Empty => Seq::empty(),
        RespModel::Error => error_resp_bytes(),
        RespModel::Stats { entries } => stats_resp_bytes(entries),
        RespModel::Stored => stored_resp_bytes(),
        RespModel::Value { key, flags, data } => value_resp_bytes(key, flags, data),
    }
}

} // verus!
