//! The protocol engine: reads commands off a byte stream and writes
//! responses back, with byte-exact framing and full I/O accounting.
//!
//! Every read contract is stated against the grammar in `wire`: what comes
//! back is exactly what `wire::parse_cmd` (or one of its pieces) says the
//! stream's pending bytes mean, and the stream advances by exactly the
//! number of bytes the grammar says were consumed. On a live stream
//! (`ByteStream::live`) success and the precise error kind are owed; on any
//! stream, whatever was returned is truthful and every byte obtained is
//! counted.

use vstd::prelude::*;
use crate::cmd::Cmd;
use crate::cmd::Get;
use crate::cmd::SetCmd;
use crate::cmd::SetInstr;
use crate::cmd::Resp;
use crate::conversions::as_number;
use crate::conversions::as_string;
use crate::conversions::dec_bytes_u64;
use crate::errors::TcpTransportError;
use crate::errors::TcpTransportResult;
use crate::stats::TransportStats;
use crate::stream::ByteStream;
use crate::wire::BYTE_CARRIAGE_RETURN;
use crate::wire::BYTE_LINE_FEED;
use crate::wire::BYTE_SPACE;
use crate::wire::TokOutcome;
use crate::wire::LineOutcome;
use crate::wire::line_words;
use crate::wire::lemma_tokenize_word_used;
use crate::wire::ParseOutcome;
use crate::wire::parse_cmd;
use crate::wire::parse_get_tail;
use crate::wire::parse_set_key;
use crate::wire::parse_set_flags;
use crate::wire::parse_set_exptime;
use crate::wire::parse_set_bytelen;
use crate::wire::parse_set_noreply;
use crate::wire::parse_set_payload;
use vstd::utf8::decode_utf8;
use vstd::utf8::encode_utf8;
use vstd::string::StrSliceExecFns;
use crate::wire::resp_bytes;
use crate::wire::stat_lines_bytes;
use crate::wire::stat_line_bytes;
use crate::wire::lemma_stat_lines_snoc;
use crate::wire::is_word_byte;
use crate::wire::space_count;
use crate::wire::word_span;
use crate::wire::tokenize_word;
use crate::wire::lemma_space_count_is;
use crate::wire::lemma_word_span_is;

verus! {

/// The ghost state of one transport: the stream's pending input, accepted
/// output and liveness, the two byte counters, and the configured maximum
/// key length.
pub struct TransportModel {
    pub inbound: Seq<u8>,
    pub outbound: Seq<u8>,
    pub live: bool,
    pub bytes_read: u64,
    pub bytes_written: u64,
    pub key_maxlen: u64,
}

/// The read side advanced by exactly `n` bytes: the pending input lost its
/// first `n` bytes, the read counter gained `n`, and nothing else moved.
pub open spec fn advanced(pre: TransportModel, post: TransportModel, n: int) -> bool {
    &&& 0 <= n <= pre.inbound.len()
    &&& post.inbound == pre.inbound.skip(n)
    &&& post.bytes_read == pre.bytes_read + n
    &&& post.outbound == pre.outbound
    &&& post.bytes_written == pre.bytes_written
    &&& post.live == pre.live
    &&& post.key_maxlen == pre.key_maxlen
}

/// However far a read operation got, it consumed a prefix of the pending
/// input and counted every byte of it; the write side did not move.
pub open spec fn read_accounted(pre: TransportModel, post: TransportModel) -> bool {
    advanced(pre, post, pre.inbound.len() - post.inbound.len())
}

/// Accounted reads compose: a step of `n` bytes followed by any accounted
/// read is itself accounted.
pub proof fn lemma_accounted_trans(a: TransportModel, b: TransportModel, c: TransportModel, n: int)
    requires
        advanced(a, b, n),
        read_accounted(b, c),
    ensures
        read_accounted(a, c),
{
    let m = b.inbound.len() - c.inbound.len();
    assert(c.inbound =~= a.inbound.skip(n + m));
}

/// The protocol engine for one connection.
pub struct TcpTransport<T: ByteStream> {
    stream: T,
    key_maxlen: u64,
    stats: TransportStats,
}

impl<T: ByteStream> View for TcpTransport<T> {
    type V = TransportModel;

    closed spec fn view(&self) -> TransportModel {
        TransportModel {
            inbound: self.stream.inbound(),
            outbound: self.stream.outbound(),
            live: self.stream.live(),
            bytes_read: self.stats.bytes_read,
            bytes_written: self.stats.bytes_written,
            key_maxlen: self.key_maxlen,
        }
    }
}

impl<T: ByteStream> TcpTransport<T> {
    /// The read counter always has room for the pending input: this is what
    /// lets every successful read be counted exactly.
    pub open spec fn wf(&self) -> bool {
        self@.bytes_read + self@.inbound.len() <= u64::MAX
    }

    /// A transport over the given stream, with fresh counters and the
    /// standard maximum key length.
    pub fn new(stream: T) -> (r: TcpTransport<T>)
        requires
            stream.inbound().len() <= u64::MAX,
        ensures
            r.wf(),
            r@.inbound == stream.inbound(),
            r@.outbound == stream.outbound(),
            r@.live == stream.live(),
            r@.bytes_read == 0,
            r@.bytes_written == 0,
            r@.key_maxlen == 250,
    {
        TcpTransport {
            key_maxlen: 250,  // memcached standard
            stats: TransportStats::new(),
            stream,
        }
    }

    /// Reconfigure the maximum key length, for chained construction.
    pub fn with_key_maxlen(&mut self, key_maxlen: u64) -> (ret: &mut TcpTransport<T>)
        ensures
            (*ret)@ == (TransportModel { key_maxlen, ..old(self)@ }),
            *final(self) == *final(ret),
    {
        self.key_maxlen = key_maxlen;
        self
    }

    /// A snapshot of the byte counters: a value copy, pinned to the model's
    /// counters, so sampling twice without intervening I/O yields equal
    /// values.
    pub fn get_stats_clone(&self) -> (r: TransportStats)
        ensures
            r.bytes_read == self@.bytes_read,
            r.bytes_written == self@.bytes_written,
    {
        self.stats.clone()
    }

    /// The underlying stream.
    pub fn get_stream(&self) -> (r: &T)
        ensures
            r.inbound() == self@.inbound,
            r.outbound() == self@.outbound,
            r.live() == self@.live,
    {
        &self.stream
    }

    /// One byte off the stream, counted.
    pub fn read_byte(&mut self) -> (r: TcpTransportResult<u8>)
        requires
            old(self).wf(),
        ensures
            final(self).wf(),
            match r {
                Ok(b) => {
                    &&& old(self)@.inbound.len() > 0
                    &&& b == old(self)@.inbound[0]
                    &&& advanced(old(self)@, final(self)@, 1)
                },
                Err(e) => {
                    &&& e == TcpTransportError::StreamReadError
                    &&& advanced(old(self)@, final(self)@, 0)
                    &&& (old(self)@.live ==> old(self)@.inbound.len() == 0)
                },
            },
            old(self)@.live && old(self)@.inbound.len() > 0 ==> r is Ok,
    {
        match self.stream.read_one() {
            Some(b) => {
                self.stats.bytes_read = self.stats.bytes_read + 1;
                proof {
                    assert(self@.inbound =~= old(self)@.inbound.skip(1));
                }
                Ok(b)
            },
            None => {
                proof {
                    assert(self@.inbound =~= old(self)@.inbound.skip(0));
                }
                Err(TcpTransportError::StreamReadError)
            },
        }
    }

    /// Exactly `len` raw bytes off the stream, never word-tokenized: payload
    /// bytes may be spaces, CR or LF. A stream exhausted first is a read
    /// error, not a short buffer.
    pub fn read_bytes(&mut self, len: u64) -> (r: TcpTransportResult<Vec<u8>>)
        requires
            old(self).wf(),
        ensures
            final(self).wf(),
            match r {
                Ok(v) => {
                    &&& old(self)@.inbound.len() >= len
                    &&& v@ == old(self)@.inbound.take(len as int)
                    &&& v@.len() == len
                    &&& advanced(old(self)@, final(self)@, len as int)
                },
                Err(e) => {
                    &&& e == TcpTransportError::StreamReadError
                    &&& read_accounted(old(self)@, final(self)@)
                    &&& (old(self)@.live ==> old(self)@.inbound.len() < len
                        && final(self)@.inbound.len() == 0)
                },
            },
            old(self)@.live && old(self)@.inbound.len() >= len ==> r is Ok,
    {
        let ghost pre = old(self)@;
        proof {
            assert(pre.inbound.skip(0) =~= pre.inbound);
        }
        let mut bytes: Vec<u8> = Vec::new();
        let mut i: u64 = 0;
        while i < len
            invariant
                pre == old(self)@,
                self.wf(),
                i <= len,
                bytes@.len() == i,
                advanced(pre, self@, i as int),
                bytes@ == pre.inbound.take(i as int),
            decreases len - i,
        {
            match self.read_byte() {
                Ok(b) => {
                    bytes.push(b);
                    proof {
                        assert(pre.inbound.skip(i as int)[0] == pre.inbound[i as int]);
                        assert(bytes@ =~= pre.inbound.take(i as int + 1));
                        assert(self@.inbound =~= pre.inbound.skip(i as int + 1));
                    }
                    i = i + 1;
                },
                Err(_) => {
                    proof {
                        assert(self@.inbound =~= pre.inbound.skip(i as int));
                        assert(advanced(pre, self@, i as int));
                        if pre.live {
                            assert(self@.inbound.len() == 0);
                            assert(pre.inbound.len() == i < len);
                        }
                    }
                    return Err(TcpTransportError::StreamReadError);
                },
            }
        }
        proof {
            assert(advanced(pre, self@, len as int));
        }
        Ok(bytes)
    }

    /// One word off the stream: leading spaces are skipped, a space after at
    /// least one word byte ends the word, and a carriage return ends the
    /// word and the line, provided a line feed follows at once — a bare CR
    /// is a framing violation. The result is exactly `wire::tokenize_word`
    /// of the pending bytes.
    pub fn read_word_in_line(&mut self) -> (r: TcpTransportResult<(Vec<u8>, bool)>)
        requires
            old(self).wf(),
        ensures
            final(self).wf(),
            match r {
                Ok(p) => match tokenize_word(old(self)@.inbound) {
                    TokOutcome::Token { word, eol, used } => {
                        &&& p.0@ == word
                        &&& p.1 == eol
                        &&& advanced(old(self)@, final(self)@, used)
                    },
                    _ => false,
                },
                Err(e) => {
                    &&& read_accounted(old(self)@, final(self)@)
                    &&& (e == TcpTransportError::StreamReadError || e
                        == TcpTransportError::LineReadError)
                    &&& (e == TcpTransportError::LineReadError ==> match tokenize_word(
                        old(self)@.inbound,
                    ) {
                        TokOutcome::BadLine { used } => advanced(old(self)@, final(self)@, used),
                        _ => false,
                    })
                    &&& (e == TcpTransportError::StreamReadError ==> (old(self)@.live
                        ==> tokenize_word(old(self)@.inbound) is Truncated
                        && final(self)@.inbound.len() == 0))
                },
            },
    {
        let ghost pre = old(self)@;
        proof {
            assert(pre.inbound.skip(0) =~= pre.inbound);
        }
        let mut word: Vec<u8> = Vec::new();
        let ghost mut sp: int = 0;
        loop
            invariant
                pre == old(self)@,
                self.wf(),
                0 <= sp,
                sp + word@.len() <= pre.inbound.len(),
                advanced(pre, self@, sp + word@.len()),
                forall|i: int| 0 <= i < sp ==> pre.inbound[i] == BYTE_SPACE,
                word@ == pre.inbound.subrange(sp, sp + word@.len()),
                forall|i: int| sp <= i < sp + word@.len() ==> is_word_byte(
                    #[trigger] pre.inbound[i],
                ),
            decreases pre.inbound.len() - sp - word@.len(),
        {
            let ghost w = word@.len() as int;
            let b = match self.read_byte() {
                Ok(b) => b,
                Err(_) => {
                    proof {
                        reveal(tokenize_word);
                        assert(self@.inbound =~= pre.inbound.skip(sp + w));
                        assert(advanced(pre, self@, sp + w));
                        if pre.live {
                            assert(pre.inbound.len() == sp + w);
                            lemma_tok_position(pre.inbound, sp, w);
                            assert(pre.inbound.skip(sp).skip(w).len() == 0);
                        }
                    }
                    return Err(TcpTransportError::StreamReadError);
                },
            };
            proof {
                assert(b == pre.inbound.skip(sp + w)[0]);
                assert(b == pre.inbound[sp + w]);
                assert(self@.inbound =~= pre.inbound.skip(sp + w + 1));
            }
            if b == BYTE_SPACE {
                if word.len() == 0 {
                    proof {
                        sp = sp + 1;
                    }
                    continue ;
                }
                proof {
                    reveal(tokenize_word);
                    lemma_tok_position(pre.inbound, sp, w);
                    let t = pre.inbound.skip(sp);
                    assert(t.skip(w)[0] == pre.inbound[sp + w]);
                    assert(word@ =~= t.take(w));
                }
                return Ok((word, false));
            } else if b == BYTE_CARRIAGE_RETURN {
                let b2 = match self.read_byte() {
                    Ok(b2) => b2,
                    Err(_) => {
                        proof {
                            reveal(tokenize_word);
                            assert(self@.inbound =~= pre.inbound.skip(sp + w + 1));
                            assert(advanced(pre, self@, sp + w + 1));
                            if pre.live {
                                assert(pre.inbound.len() == sp + w + 1);
                                lemma_tok_position(pre.inbound, sp, w);
                                let t = pre.inbound.skip(sp);
                                assert(t.skip(w)[0] == pre.inbound[sp + w]);
                                assert(t.skip(w).len() == 1);
                            }
                        }
                        return Err(TcpTransportError::StreamReadError);
                    },
                };
                proof {
                    reveal(tokenize_word);
                    assert(b2 == pre.inbound.skip(sp + w + 1)[0]);
                    assert(b2 == pre.inbound[sp + w + 1]);
                    assert(self@.inbound =~= pre.inbound.skip(sp + w + 2));
                    assert(advanced(pre, self@, sp + w + 2));
                    lemma_tok_position(pre.inbound, sp, w);
                    let t = pre.inbound.skip(sp);
                    assert(t.skip(w)[0] == pre.inbound[sp + w]);
                    assert(t.skip(w)[1] == pre.inbound[sp + w + 1]);
                    assert(word@ =~= t.take(w));
                }
                if b2 != BYTE_LINE_FEED {
                    return Err(TcpTransportError::LineReadError);
                }
                return Ok((word, true));
            } else {
                word.push(b);
                proof {
                    assert(word@ =~= pre.inbound.subrange(sp, sp + w + 1));
                }
            }
        }
    }

    /// All words of one line, in order, empty words dropped: the tokenizer
    /// is run until it reports the end of the line. The result is exactly
    /// `wire::line_words` of the pending bytes.
    pub fn read_line_as_words(&mut self) -> (r: TcpTransportResult<Vec<Vec<u8>>>)
        requires
            old(self).wf(),
        ensures
            final(self).wf(),
            match r {
                Ok(ws) => match line_words(old(self)@.inbound) {
                    LineOutcome::Words { words, used } => {
                        &&& ws.deep_view() == words
                        &&& advanced(old(self)@, final(self)@, used)
                    },
                    _ => false,
                },
                Err(e) => {
                    &&& read_accounted(old(self)@, final(self)@)
                    &&& (e == TcpTransportError::StreamReadError || e
                        == TcpTransportError::LineReadError)
                    &&& (e == TcpTransportError::LineReadError ==> line_words(old(self)@.inbound)
                        is BadLine)
                    &&& (e == TcpTransportError::StreamReadError ==> (old(self)@.live
                        ==> line_words(old(self)@.inbound) is Truncated))
                },
            },
    {
        let ghost pre = old(self)@;
        proof {
            assert(pre.inbound.skip(0) =~= pre.inbound);
        }
        let mut words: Vec<Vec<u8>> = Vec::new();
        let ghost mut consumed: int = 0;
        loop
            invariant
                pre == old(self)@,
                self.wf(),
                advanced(pre, self@, consumed),
                match line_words(pre.inbound) {
                    LineOutcome::Words { words: all, used } => match line_words(self@.inbound) {
                        LineOutcome::Words { words: tail, used: tail_used } => {
                            &&& all == words.deep_view() + tail
                            &&& used == consumed + tail_used
                        },
                        _ => false,
                    },
                    LineOutcome::Truncated => line_words(self@.inbound) is Truncated,
                    LineOutcome::BadLine => line_words(self@.inbound) is BadLine,
                },
            decreases self@.inbound.len(),
        {
            let ghost m = self@;
            let ghost cur = m.inbound;
            proof {
                lemma_tokenize_word_used(cur);
            }
            let (word, end_of_line) = match self.read_word_in_line() {
                Ok(p) => p,
                Err(e) => {
                    proof {
                        lemma_accounted_trans(pre, m, self@, consumed);
                    }
                    return Err(e);
                },
            };
            let ghost tok_used = match tokenize_word(cur) {
                TokOutcome::Token { used, .. } => used,
                _ => 0,
            };
            let ghost prev_words = words.deep_view();
            proof {
                assert(self@.inbound =~= pre.inbound.skip(consumed + tok_used));
                consumed = consumed + tok_used;
            }
            if !word.is_empty() {
                words.push(word);
                proof {
                    assert(words.deep_view() =~~= prev_words + seq![word@]);
                }
            } else {
                proof {
                    assert(words.deep_view() =~~= prev_words);
                }
            }
            if end_of_line {
                proof {
                    match line_words(pre.inbound) {
                        LineOutcome::Words { words: all, used } => {
                            assert(all =~~= words.deep_view());
                        },
                        _ => {},
                    }
                }
                return Ok(words);
            }
        }
    }

    /// One `get` command's tail, after the keyword: exactly one key word,
    /// which must end the line. The result is exactly `wire::parse_get_tail`
    /// of the pending bytes.
    pub fn parse_cmd_get(&mut self) -> (r: TcpTransportResult<Cmd>)
        requires
            old(self).wf(),
        ensures
            final(self).wf(),
            match r {
                Ok(c) => match parse_get_tail(old(self)@.inbound) {
                    ParseOutcome::Parsed { cmd, used } => {
                        &&& c@ == cmd
                        &&& advanced(old(self)@, final(self)@, used)
                    },
                    _ => false,
                },
                Err(e) => {
                    &&& read_accounted(old(self)@, final(self)@)
                    &&& (e != TcpTransportError::StreamReadError ==> parse_get_tail(
                        old(self)@.inbound,
                    ) == (ParseOutcome::Failed { err: e }))
                    &&& (old(self)@.live ==> parse_get_tail(old(self)@.inbound)
                        == (ParseOutcome::Failed { err: e }))
                },
            },
    {
        let ghost s0 = old(self)@.inbound;
        let (key, end_of_line) = match self.read_word_in_line() {
            Ok(p) => p,
            Err(e) => {
                proof {
                    reveal(parse_get_tail);
                }
                return Err(e);
            },
        };
        let ghost kb = key@;
        let key_str = match as_string(key) {
            Ok(s) => s,
            Err(e) => {
                proof {
                    reveal(parse_get_tail);
                }
                return Err(e);
            },
        };
        if !end_of_line {
            proof {
                reveal(parse_get_tail);
            }
            return Err(TcpTransportError::CommandParseError);
        }
        proof {
            reveal(parse_get_tail);
        }
        Ok(Cmd::Get(Get { key: key_str }))
    }


    /// One word that must not end the line: the shape of the `set` line's
    /// leading fields. A word terminated by the line terminator instead is a
    /// `CommandParseError`.
    fn read_word_no_eol(&mut self) -> (r: TcpTransportResult<Vec<u8>>)
        requires
            old(self).wf(),
        ensures
            final(self).wf(),
            match r {
                Ok(w) => match tokenize_word(old(self)@.inbound) {
                    TokOutcome::Token { word, eol, used } => {
                        &&& w@ == word
                        &&& !eol
                        &&& advanced(old(self)@, final(self)@, used)
                    },
                    _ => false,
                },
                Err(e) => {
                    &&& read_accounted(old(self)@, final(self)@)
                    &&& match e {
                        TcpTransportError::StreamReadError => old(self)@.live ==> tokenize_word(
                            old(self)@.inbound,
                        ) is Truncated,
                        TcpTransportError::LineReadError => tokenize_word(old(self)@.inbound)
                            is BadLine,
                        TcpTransportError::CommandParseError => match tokenize_word(
                            old(self)@.inbound,
                        ) {
                            TokOutcome::Token { word, eol, used } => eol && advanced(
                                old(self)@,
                                final(self)@,
                                used,
                            ),
                            _ => false,
                        },
                        _ => false,
                    }
                },
            },
    {
        let (w, end_of_line) = self.read_word_in_line()?;
        if end_of_line {
            return Err(TcpTransportError::CommandParseError);
        }
        Ok(w)
    }

    /// One `set` command's tail, after the keyword: key, flags, exptime and
    /// byte length in strict order, an optional `noreply` word, then exactly
    /// the declared number of raw payload bytes and the line terminator. The
    /// result is exactly `wire::parse_set_key` of the pending bytes.
    #[verifier::rlimit(100)]
    #[verifier::spinoff_prover]
    pub fn parse_cmd_set(&mut self) -> (r: TcpTransportResult<Cmd>)
        requires
            old(self).wf(),
        ensures
            final(self).wf(),
            match r {
                Ok(c) => match parse_set_key(old(self)@.inbound) {
                    ParseOutcome::Parsed { cmd, used } => {
                        &&& c@ == cmd
                        &&& advanced(old(self)@, final(self)@, used)
                    },
                    _ => false,
                },
                Err(e) => {
                    &&& read_accounted(old(self)@, final(self)@)
                    &&& (e != TcpTransportError::StreamReadError ==> parse_set_key(
                        old(self)@.inbound,
                    ) == (ParseOutcome::Failed { err: e }))
                    &&& (old(self)@.live ==> parse_set_key(old(self)@.inbound)
                        == (ParseOutcome::Failed { err: e }))
                },
            },
    {
        let ghost pre = old(self)@;
        let ghost s0 = pre.inbound;
        // key
        let w1 = match self.read_word_no_eol() {
            Ok(w) => w,
            Err(e) => {
                proof {
                    reveal(parse_set_key);
                }
                return Err(e);
            },
        };
        let ghost u1 = match tokenize_word(s0) {
            TokOutcome::Token { used, .. } => used,
            _ => 0,
        };
        let ghost s1 = s0.skip(u1);
        let ghost w1b = w1@;
        let key_str = match as_string(w1) {
            Ok(s) => s,
            Err(e) => {
                proof {
                    reveal(parse_set_key);
                }
                return Err(e);
            },
        };
        let ghost keyc = decode_utf8(w1b);
        proof {
            reveal(parse_set_key);
            assert(parse_set_key(s0) == crate::wire::shifted(
                crate::wire::parse_set_flags(s1, keyc),
                u1,
            ));
        }
        // flags
        let ghost m1 = self@;
        let w2 = match self.read_word_no_eol() {
            Ok(w) => w,
            Err(e) => {
                proof {
                    reveal(parse_set_flags);
                    lemma_accounted_trans(pre, m1, self@, u1);
                }
                return Err(e);
            },
        };
        let ghost u2 = match tokenize_word(s1) {
            TokOutcome::Token { used, .. } => used,
            _ => 0,
        };
        let ghost s2 = s1.skip(u2);
        proof {
            assert(self@.inbound =~= s0.skip(u1 + u2));
            assert(advanced(pre, self@, u1 + u2));
        }
        let ghost w2b = w2@;
        let flags_num = match as_number::<u16>(w2) {
            Ok(n) => n,
            Err(e) => {
                proof {
                    reveal(parse_set_flags);
                }
                return Err(e);
            },
        };
        proof {
            reveal(parse_set_flags);
            assert(parse_set_key(s0) == crate::wire::shifted(
                crate::wire::parse_set_exptime(s2, keyc, flags_num),
                u1 + u2,
            ));
        }
        // exptime
        let ghost m2 = self@;
        let w3 = match self.read_word_no_eol() {
            Ok(w) => w,
            Err(e) => {
                proof {
                    reveal(parse_set_exptime);
                    lemma_accounted_trans(pre, m2, self@, u1 + u2);
                }
                return Err(e);
            },
        };
        let ghost u3 = match tokenize_word(s2) {
            TokOutcome::Token { used, .. } => used,
            _ => 0,
        };
        let ghost s3 = s2.skip(u3);
        proof {
            assert(self@.inbound =~= s0.skip(u1 + u2 + u3));
            assert(advanced(pre, self@, u1 + u2 + u3));
        }
        let ghost w3b = w3@;
        let exptime_num = match as_number::<u32>(w3) {
            Ok(n) => n,
            Err(e) => {
                proof {
                    reveal(parse_set_exptime);
                }
                return Err(e);
            },
        };
        proof {
            reveal(parse_set_exptime);
            assert(parse_set_key(s0) == crate::wire::shifted(
                crate::wire::parse_set_bytelen(s3, keyc, (flags_num, exptime_num)),
                u1 + u2 + u3,
            ));
        }
        // bytelen
        let ghost m3 = self@;
        let (w4, eol4) = match self.read_word_in_line() {
            Ok(p) => p,
            Err(e) => {
                proof {
                    reveal(parse_set_bytelen);
                    lemma_accounted_trans(pre, m3, self@, u1 + u2 + u3);
                }
                return Err(e);
            },
        };
        let ghost u4 = match tokenize_word(s3) {
            TokOutcome::Token { used, .. } => used,
            _ => 0,
        };
        let ghost s4 = s3.skip(u4);
        proof {
            assert(self@.inbound =~= s0.skip(u1 + u2 + u3 + u4));
            assert(advanced(pre, self@, u1 + u2 + u3 + u4));
        }
        let ghost w4b = w4@;
        let bytelen_num = match as_number::<u64>(w4) {
            Ok(n) => n,
            Err(e) => {
                proof {
                    reveal(parse_set_bytelen);
                }
                return Err(e);
            },
        };
        proof {
            reveal(parse_set_bytelen);
            if eol4 {
                assert(parse_set_key(s0) == crate::wire::shifted(
                    crate::wire::parse_set_payload(
                        s4,
                        keyc,
                        (flags_num, exptime_num),
                        bytelen_num as int,
                        false,
                    ),
                    u1 + u2 + u3 + u4,
                ));
            } else {
                assert(parse_set_key(s0) == crate::wire::shifted(
                    crate::wire::parse_set_noreply(
                        s4,
                        keyc,
                        (flags_num, exptime_num),
                        bytelen_num as int,
                    ),
                    u1 + u2 + u3 + u4,
                ));
            }
        }
        // noreply
        let ghost mut u5: int = 0;
        let noreply_flag = if eol4 {
            false
        } else {
            let ghost m4 = self@;
            let (w5, eol5) = match self.read_word_in_line() {
                Ok(p) => p,
                Err(e) => {
                    proof {
                        reveal(parse_set_noreply);
                        lemma_accounted_trans(pre, m4, self@, u1 + u2 + u3 + u4);
                    }
                    return Err(e);
                },
            };
            proof {
                u5 = match tokenize_word(s4) {
                    TokOutcome::Token { used, .. } => used,
                    _ => 0,
                };
                assert(self@.inbound =~= s0.skip(u1 + u2 + u3 + u4 + u5));
                assert(advanced(pre, self@, u1 + u2 + u3 + u4 + u5));
            }
            if !eol5 {
                proof {
                    reveal(parse_set_noreply);
                }
                return Err(TcpTransportError::CommandParseError);
            }
            let is_nr = is_noreply_word(&w5);
            let ghost w5b = w5@;
            match as_string(w5) {
                Ok(_) => (),
                Err(e) => {
                    proof {
                        reveal(parse_set_noreply);
                    }
                    return Err(e);
                },
            };
            is_nr
        };
        let ghost sp_ = s0.skip(u1 + u2 + u3 + u4 + u5);
        proof {
            assert(self@.inbound =~= sp_);
            assert(advanced(pre, self@, u1 + u2 + u3 + u4 + u5));
            if !eol4 {
                reveal(parse_set_noreply);
                assert(s4.skip(u5) =~= sp_);
            } else {
                assert(s4 =~= sp_);
            }
            assert(parse_set_key(s0) == crate::wire::shifted(
                crate::wire::parse_set_payload(
                    sp_,
                    keyc,
                    (flags_num, exptime_num),
                    bytelen_num as int,
                    noreply_flag,
                ),
                u1 + u2 + u3 + u4 + u5,
            ));
        }
        // payload and terminator
        let ghost m5 = self@;
        let value = match self.read_bytes(bytelen_num) {
            Ok(v) => v,
            Err(e) => {
                proof {
                    reveal(parse_set_payload);
                    lemma_accounted_trans(pre, m5, self@, u1 + u2 + u3 + u4 + u5);
                }
                return Err(e);
            },
        };
        let ghost m6 = self@;
        let terminator = match self.read_bytes(2) {
            Ok(v) => v,
            Err(e) => {
                proof {
                    reveal(parse_set_payload);
                    assert(m6.inbound =~= s0.skip(
                        u1 + u2 + u3 + u4 + u5 + bytelen_num as int,
                    ));
                    assert(advanced(pre, m6, u1 + u2 + u3 + u4 + u5 + bytelen_num as int));
                    lemma_accounted_trans(
                        pre,
                        m6,
                        self@,
                        u1 + u2 + u3 + u4 + u5 + bytelen_num as int,
                    );
                }
                return Err(e);
            },
        };
        proof {
            reveal(parse_set_payload);
            assert(sp_.skip(bytelen_num as int)[0] == sp_[bytelen_num as int]);
            assert(sp_.skip(bytelen_num as int)[1] == sp_[bytelen_num as int + 1]);
            assert(self@.inbound =~= s0.skip(
                u1 + u2 + u3 + u4 + u5 + bytelen_num as int + 2,
            ));
            assert(advanced(pre, self@, u1 + u2 + u3 + u4 + u5 + bytelen_num as int + 2));
        }
        if !(terminator[0] == BYTE_CARRIAGE_RETURN && terminator[1] == BYTE_LINE_FEED) {
            return Err(TcpTransportError::CommandParseError);
        }
        Ok(
            Cmd::SetCmd(
                SetCmd {
                    instr: SetInstr::Store,
                    key: key_str,
                    flags: flags_num,
                    exptime: exptime_num,
                    data: value,
                    noreply: noreply_flag,
                },
            ),
        )
    }

    /// One whole command off the stream: the keyword word dispatches to the
    /// verb's tail parser; `stats` is complete at its keyword; an unknown
    /// keyword is `InvalidCmd`. The result is exactly `wire::parse_cmd` of
    /// the pending bytes.
    pub fn read_cmd(&mut self) -> (r: TcpTransportResult<Cmd>)
        requires
            old(self).wf(),
        ensures
            final(self).wf(),
            match r {
                Ok(c) => match parse_cmd(old(self)@.inbound) {
                    ParseOutcome::Parsed { cmd, used } => {
                        &&& c@ == cmd
                        &&& advanced(old(self)@, final(self)@, used)
                    },
                    _ => false,
                },
                Err(e) => {
                    &&& read_accounted(old(self)@, final(self)@)
                    &&& (e != TcpTransportError::StreamReadError ==> parse_cmd(old(self)@.inbound)
                        == (ParseOutcome::Failed { err: e }))
                    &&& (old(self)@.live ==> parse_cmd(old(self)@.inbound) == (ParseOutcome::Failed {
                        err: e,
                    }))
                },
            },
            old(self)@.live ==> ((parse_cmd(old(self)@.inbound) is Parsed) <==> r is Ok),
    {
        let ghost pre = old(self)@;
        let ghost s0 = pre.inbound;
        let (word, _end_of_line) = match self.read_word_in_line() {
            Ok(p) => p,
            Err(e) => {
                proof {
                    reveal(parse_cmd);
                }
                return Err(e);
            },
        };
        let ghost u0 = match tokenize_word(s0) {
            TokOutcome::Token { used, .. } => used,
            _ => 0,
        };
        let is_get = is_get_word(&word);
        let is_set = is_set_word(&word);
        let is_stats = is_stats_word(&word);
        let ghost wb = word@;
        match as_string(word) {
            Ok(_) => (),
            Err(e) => {
                proof {
                    reveal(parse_cmd);
                }
                return Err(e);
            },
        };
        proof {
            reveal(parse_cmd);
        }
        if is_get {
            let ghost m = self@;
            match self.parse_cmd_get() {
                Ok(c) => {
                    proof {
                        let u = match parse_get_tail(s0.skip(u0)) {
                            ParseOutcome::Parsed { used, .. } => used,
                            _ => 0,
                        };
                        assert(self@.inbound =~= s0.skip(u0 + u));
                    }
                    return Ok(c);
                },
                Err(e) => {
                    proof {
                        lemma_accounted_trans(pre, m, self@, u0);
                    }
                    return Err(e);
                },
            }
        } else if is_set {
            let ghost m = self@;
            match self.parse_cmd_set() {
                Ok(c) => {
                    proof {
                        let u = match parse_set_key(s0.skip(u0)) {
                            ParseOutcome::Parsed { used, .. } => used,
                            _ => 0,
                        };
                        assert(self@.inbound =~= s0.skip(u0 + u));
                    }
                    return Ok(c);
                },
                Err(e) => {
                    proof {
                        lemma_accounted_trans(pre, m, self@, u0);
                    }
                    return Err(e);
                },
            }
        } else if is_stats {
            return Ok(Cmd::Stats);
        }
        Err(TcpTransportError::InvalidCmd)
    }

    /// Push all accepted bytes down to the sink.
    pub fn flush_writes(&mut self) -> (r: TcpTransportResult<()>)
        ensures
            final(self)@ == old(self)@,
            r matches Err(e) ==> e == TcpTransportError::StreamWriteError,
            old(self)@.live ==> r is Ok,
    {
        if self.stream.flush_all() {
            Ok(())
        } else {
            Err(TcpTransportError::StreamWriteError)
        }
    }

    /// Write a whole byte buffer to the sink and count it; the number of
    /// bytes written is handed back.
    pub fn write_bytes(&mut self, bytes: &Vec<u8>) -> (r: TcpTransportResult<usize>)
        requires
            old(self)@.bytes_written + bytes@.len() <= u64::MAX,
        ensures
            final(self)@.inbound == old(self)@.inbound,
            final(self)@.bytes_read == old(self)@.bytes_read,
            final(self)@.live == old(self)@.live,
            final(self)@.key_maxlen == old(self)@.key_maxlen,
            match r {
                Ok(n) => {
                    &&& n == bytes@.len()
                    &&& final(self)@.outbound == old(self)@.outbound + bytes@
                    &&& final(self)@.bytes_written == old(self)@.bytes_written + n
                },
                Err(e) => {
                    &&& e == TcpTransportError::StreamWriteError
                    &&& final(self)@.outbound == old(self)@.outbound
                    &&& final(self)@.bytes_written == old(self)@.bytes_written
                },
            },
            old(self)@.live ==> r is Ok,
    {
        let n = bytes.len();
        if self.stream.write_all(bytes.as_slice()) {
            self.stats.bytes_written = self.stats.bytes_written + n as u64;
            Ok(n)
        } else {
            Err(TcpTransportError::StreamWriteError)
        }
    }

    /// Write a string's UTF-8 bytes to the sink and count them.
    pub fn write_string(&mut self, string: &str) -> (r: TcpTransportResult<usize>)
        requires
            old(self)@.bytes_written + encode_utf8(string@).len() <= u64::MAX,
        ensures
            final(self)@.inbound == old(self)@.inbound,
            final(self)@.bytes_read == old(self)@.bytes_read,
            final(self)@.live == old(self)@.live,
            final(self)@.key_maxlen == old(self)@.key_maxlen,
            match r {
                Ok(n) => {
                    &&& n == encode_utf8(string@).len()
                    &&& final(self)@.outbound == old(self)@.outbound + encode_utf8(string@)
                    &&& final(self)@.bytes_written == old(self)@.bytes_written + n
                },
                Err(e) => {
                    &&& e == TcpTransportError::StreamWriteError
                    &&& final(self)@.outbound == old(self)@.outbound
                    &&& final(self)@.bytes_written == old(self)@.bytes_written
                },
            },
            old(self)@.live ==> r is Ok,
    {
        let bytes = string.as_bytes_vec();
        self.write_bytes(&bytes)
    }

    /// Serialize one response onto the sink, byte-exactly as
    /// `wire::resp_bytes` describes it, and flush: `Empty` writes nothing,
    /// `Error` and `Stored` their fixed lines, `Stats` one line per entry in
    /// order plus the `END` line, and `Value` its header line, raw payload,
    /// terminator and `END` line.
    pub fn write_resp(&mut self, resp: &Resp) -> (r: TcpTransportResult<()>)
        requires
            old(self)@.bytes_written + resp_bytes(resp@).len() <= u64::MAX,
        ensures
            final(self)@.inbound == old(self)@.inbound,
            final(self)@.bytes_read == old(self)@.bytes_read,
            final(self)@.live == old(self)@.live,
            final(self)@.key_maxlen == old(self)@.key_maxlen,
            match r {
                Ok(_) => {
                    &&& final(self)@.outbound == old(self)@.outbound + resp_bytes(resp@)
                    &&& final(self)@.bytes_written == old(self)@.bytes_written + resp_bytes(
                        resp@,
                    ).len()
                },
                Err(e) => {
                    &&& e == TcpTransportError::StreamWriteError
                    &&& (final(self)@.outbound == old(self)@.outbound || final(self)@.outbound
                        == old(self)@.outbound + resp_bytes(resp@))
                    &&& final(self)@.bytes_written - old(self)@.bytes_written
                        == final(self)@.outbound.len() - old(self)@.outbound.len()
                },
            },
            old(self)@.live ==> r is Ok,
    {
        let buf = render_resp(resp);
        match self.write_bytes(&buf) {
            Ok(_) => (),
            Err(e) => {
                return Err(e);
            },
        };
        // Make sure all bytes were actually sent
        self.flush_writes()
    }
}

/// The exact wire bytes of one response, assembled in memory: what
/// `wire::resp_bytes` says, computed.
fn render_resp(resp: &Resp) -> (r: Vec<u8>)
    ensures
        r@ == resp_bytes(resp@),
{
    let mut buf: Vec<u8> = Vec::new();
    match resp {
        Resp::Empty => {
            proof {
                assert(buf@ =~= resp_bytes(resp@));
            }
        },
        Resp::Error => {
            buf.push(69);
            buf.push(82);
            buf.push(82);
            buf.push(79);
            buf.push(82);
            buf.push(13);
            buf.push(10);
            proof {
                assert(buf@ =~= resp_bytes(resp@));
            }
        },
        Resp::Stored => {
            buf.push(83);
            buf.push(84);
            buf.push(79);
            buf.push(82);
            buf.push(69);
            buf.push(68);
            buf.push(13);
            buf.push(10);
            proof {
                assert(buf@ =~= resp_bytes(resp@));
            }
        },
        Resp::Stats(entries) => {
            let ghost model = entries@.map(|i: int, s: crate::cmd::Stat| (s.key@, s.value@));
            let mut i: usize = 0;
            proof {
                assert(model.take(0) =~= Seq::<(Seq<char>, Seq<char>)>::empty());
                assert(buf@ =~= stat_lines_bytes(model.take(0)));
            }
            while i < entries.len()
                invariant
                    i <= entries.len(),
                    model == entries@.map(|j: int, s: crate::cmd::Stat| (s.key@, s.value@)),
                    buf@ == stat_lines_bytes(model.take(i as int)),
                decreases entries.len() - i,
            {
                let ghost before = buf@;
                let entry = &entries[i];
                buf.push(83);
                buf.push(84);
                buf.push(65);
                buf.push(84);
                buf.push(32);
                let kb = entry.key.as_bytes_vec();
                buf.extend_from_slice(kb.as_slice());
                buf.push(32);
                let vb = entry.value.as_bytes_vec();
                buf.extend_from_slice(vb.as_slice());
                buf.push(13);
                buf.push(10);
                proof {
                    lemma_stat_lines_snoc(model, i as int);
                    assert(buf@ =~= before + stat_line_bytes(model[i as int]));
                }
                i = i + 1;
            }
            buf.push(69);
            buf.push(78);
            buf.push(68);
            buf.push(13);
            buf.push(10);
            proof {
                assert(model.take(entries@.len() as int) =~= model);
                assert(buf@ =~= stat_lines_bytes(model) + crate::wire::end_line_bytes());
                assert(resp_bytes(resp@) == stat_lines_bytes(model)
                    + crate::wire::end_line_bytes());
            }
        },
        Resp::Value(value) => {
            buf.push(86);
            buf.push(65);
            buf.push(76);
            buf.push(85);
            buf.push(69);
            buf.push(32);
            let kb = value.key.as_bytes_vec();
            buf.extend_from_slice(kb.as_slice());
            buf.push(32);
            let fb = dec_bytes_u64(value.flags as u64);
            buf.extend_from_slice(fb.as_slice());
            buf.push(32);
            let lb = dec_bytes_u64(value.data.len() as u64);
            buf.extend_from_slice(lb.as_slice());
            buf.push(13);
            buf.push(10);
            buf.extend_from_slice(value.data.as_slice());
            buf.push(13);
            buf.push(10);
            buf.push(69);
            buf.push(78);
            buf.push(68);
            buf.push(13);
            buf.push(10);
            proof {
                assert(buf@ =~= resp_bytes(resp@));
            }
        },
    }
    buf
}

/// `w` holds exactly the keyword `get`.
fn is_get_word(w: &Vec<u8>) -> (r: bool)
    ensures
        r == (w@ == crate::wire::get_keyword()),
{
    let r = w.len() == 3 && w[0] == 103 && w[1] == 101 && w[2] == 116;
    proof {
        if r {
            assert(w@ =~= crate::wire::get_keyword());
        } else if w@ == crate::wire::get_keyword() {
            assert(w@.len() == 3);
            assert(w@[0] == 103u8 && w@[1] == 101u8 && w@[2] == 116u8);
        }
    }
    r
}

/// `w` holds exactly the keyword `set`.
fn is_set_word(w: &Vec<u8>) -> (r: bool)
    ensures
        r == (w@ == crate::wire::set_keyword()),
{
    let r = w.len() == 3 && w[0] == 115 && w[1] == 101 && w[2] == 116;
    proof {
        if r {
            assert(w@ =~= crate::wire::set_keyword());
        } else if w@ == crate::wire::set_keyword() {
            assert(w@.len() == 3);
            assert(w@[0] == 115u8 && w@[1] == 101u8 && w@[2] == 116u8);
        }
    }
    r
}

/// `w` holds exactly the keyword `stats`.
fn is_stats_word(w: &Vec<u8>) -> (r: bool)
    ensures
        r == (w@ == crate::wire::stats_keyword()),
{
    let r = w.len() == 5 && w[0] == 115 && w[1] == 116 && w[2] == 97 && w[3] == 116 && w[4] == 115;
    proof {
        if r {
            assert(w@ =~= crate::wire::stats_keyword());
        } else if w@ == crate::wire::stats_keyword() {
            assert(w@.len() == 5);
            assert(w@[0] == 115u8 && w@[1] == 116u8 && w@[2] == 97u8 && w@[3] == 116u8 && w@[4]
                == 115u8);
        }
    }
    r
}

/// `w` holds exactly the literal token `noreply`.
fn is_noreply_word(w: &Vec<u8>) -> (r: bool)
    ensures
        r == (w@ == crate::wire::noreply_word()),
{
    let r = w.len() == 7 && w[0] == 110 && w[1] == 111 && w[2] == 114 && w[3] == 101 && w[4] == 112
        && w[5] == 108 && w[6] == 121;
    proof {
        if r {
            assert(w@ =~= crate::wire::noreply_word());
        } else if w@ == crate::wire::noreply_word() {
            assert(w@.len() == 7);
            assert(w@[0] == 110u8 && w@[1] == 111u8 && w@[2] == 114u8 && w@[3] == 101u8 && w@[4]
                == 112u8 && w@[5] == 108u8 && w@[6] == 121u8);
        }
    }
    r
}

/// Where the tokenizer's cursor stands after `sp` skipped spaces and `w`
/// collected word bytes: those runs are exactly the leading space run and
/// the leading word run, provided the next byte (if any) extends neither.
proof fn lemma_tok_position(s: Seq<u8>, sp: int, w: int)
    requires
        0 <= sp,
        0 <= w,
        sp + w <= s.len(),
        forall|i: int| 0 <= i < sp ==> s[i] == BYTE_SPACE,
        forall|i: int| sp <= i < sp + w ==> is_word_byte(#[trigger] s[i]),
        sp + w == s.len() || !is_word_byte(s[sp + w]),
        w == 0 ==> sp == s.len() || s[sp] != BYTE_SPACE,
    ensures
        space_count(s) == sp,
        word_span(s.skip(sp)) == w,
{
    if sp < s.len() {
        if w > 0 {
            assert(is_word_byte(s[sp]));
        }
        lemma_space_count_is(s, sp);
    } else {
        lemma_space_count_is(s, sp);
    }
    let t = s.skip(sp);
    assert(forall|i: int| 0 <= i < w ==> t[i] == s[sp + i]);
    if w < t.len() {
        assert(t[w] == s[sp + w]);
    }
    lemma_word_span_is(t, w);
}

} // verus!
