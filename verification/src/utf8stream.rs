//! The UTF-8 re-assembly buffer of the I/O streaming pipeline: PTY output
//! arrives in arbitrary byte chunks, and a read boundary must never split a
//! codepoint or silently drop bytes. The decoder carries the incomplete
//! trailing sequence across reads; genuinely invalid bytes each become the
//! replacement character. Feeding a stream in any chunking produces exactly
//! the output of decoding it whole: [`lemma_chunked_decode`].

use vstd::prelude::*;
use crate::json::char_from_u32;
use crate::textutil::chars_to_string;

verus! {

/// The decoder state between reads: how many continuation bytes the open
/// sequence still expects, the codepoint bits collected so far, and the
/// accepted range of the next byte (which encodes the overlong and
/// surrogate exclusions of the second byte).
pub struct Utf8Stream {
    pub needed: u8,
    pub acc: u32,
    pub lo: u8,
    pub hi: u8,
}

/// The state with no sequence open.
pub open spec fn init_state() -> Utf8Stream {
    Utf8Stream { needed: 0, acc: 0, lo: 0x80, hi: 0xbf }
}

/// The replacement character emitted for invalid bytes.
pub open spec fn replacement() -> char {
    '\u{fffd}'
}

/// The transition on one byte from the open state: ASCII is emitted
/// directly, a valid leading byte opens a sequence with the byte range its
/// second byte must fall into, and anything else is one replacement
/// character.
pub open spec fn step_open(b: u8) -> (Utf8Stream, Seq<char>) {
    if b <= 0x7f {
        (init_state(), seq![b as char])
    } else if 0xc2 <= b && b <= 0xdf {
        (Utf8Stream { needed: 1, acc: (b & 0x1f) as u32, lo: 0x80, hi: 0xbf }, seq![])
    } else if 0xe0 <= b && b <= 0xef {
        (
            Utf8Stream {
                needed: 2,
                acc: (b & 0x0f) as u32,
                lo: if b == 0xe0 {
                    0xa0
                } else {
                    0x80
                },
                hi: if b == 0xed {
                    0x9f
                } else {
                    0xbf
                },
            },
            seq![],
        )
    } else if 0xf0 <= b && b <= 0xf4 {
        (
            Utf8Stream {
                needed: 3,
                acc: (b & 0x07) as u32,
                lo: if b == 0xf0 {
                    0x90
                } else {
                    0x80
                },
                hi: if b == 0xf4 {
                    0x8f
                } else {
                    0xbf
                },
            },
            seq![],
        )
    } else {
        (init_state(), seq![replacement()])
    }
}

/// The transition on one byte: inside a sequence, an acceptable
/// continuation byte extends or finishes the scalar; an unacceptable byte
/// replaces the unfinished sequence with one replacement character and is
/// then reconsidered from the open state (the maximal-subpart policy, as
/// `String::from_utf8_lossy` applies it).
pub open spec fn step(st: Utf8Stream, b: u8) -> (Utf8Stream, Seq<char>) {
    if st.needed == 0 {
        step_open(b)
    } else if st.lo <= b && b <= st.hi {
        let acc2 = (st.acc * 64 + ((b & 0x3f) as u32)) as u32;
        if st.needed == 1 {
            (init_state(), seq![acc2 as char])
        } else {
            (
                Utf8Stream { needed: (st.needed - 1) as u8, acc: acc2, lo: 0x80, hi: 0xbf },
                seq![],
            )
        }
    } else {
        let r = step_open(b);
        (r.0, seq![replacement()] + r.1)
    }
}

/// The decoder run over a whole byte sequence.
pub open spec fn run(st: Utf8Stream, bytes: Seq<u8>) -> (Utf8Stream, Seq<char>)
    decreases bytes.len(),
{
    if bytes.len() == 0 {
        (st, seq![])
    } else {
        let h = step(st, bytes[0]);
        let r = run(h.0, bytes.skip(1));
        (r.0, h.1 + r.1)
    }
}

/// What flushing the decoder at end-of-stream emits: one replacement
/// character when a sequence is still open.
pub open spec fn flush_out(st: Utf8Stream) -> Seq<char> {
    if st.needed == 0 {
        seq![]
    } else {
        seq![replacement()]
    }
}

/// Reachable decoder states: the collected bits always extend to a valid
/// Unicode scalar whatever acceptable bytes follow.
pub open spec fn wf_state(st: Utf8Stream) -> bool {
    &&& st.needed <= 3
    &&& (st.needed > 0 ==> 0x80 <= st.lo && st.hi <= 0xbf)
    &&& (st.needed == 1 ==> st.acc <= 0x43ff && !(0x360 <= st.acc && st.acc <= 0x37f))
    &&& (st.needed == 2 ==> st.acc <= 0x10f && (st.acc == 0xd ==> st.hi == 0x9f))
    &&& (st.needed == 3 ==> st.acc <= 4 && (st.acc == 0 ==> st.lo == 0x90) && (st.acc == 4
        ==> st.hi == 0x8f))
}

/// One step preserves reachability, and a finished scalar is a valid
/// `char` code point.
pub proof fn lemma_step_wf(st: Utf8Stream, b: u8)
    requires
        wf_state(st),
    ensures
        wf_state(step(st, b).0),
        st.needed == 1 && st.lo <= b && b <= st.hi ==> ({
            let cp = st.acc * 64 + ((b & 0x3f) as u32);
            cp <= 0x10ffff && !(0xd800 <= cp && cp <= 0xdfff)
        }),
{
    assert((b & 0x1f) <= 0x1f) by (bit_vector);
    assert((b & 0x0f) <= 0x0f) by (bit_vector);
    assert((b & 0x07) <= 0x07) by (bit_vector);
    assert((b & 0x3f) <= 0x3f) by (bit_vector);
    assert(0xc2 <= b && b <= 0xdf ==> (b & 0x1f) >= 2) by (bit_vector);
    assert(b == 0xed ==> (b & 0x0f) == 0xd) by (bit_vector);
    assert(0xe0 <= b && b <= 0xef && b != 0xed ==> (b & 0x0f) != 0xd) by (bit_vector);
    assert(b == 0xe0 ==> (b & 0x0f) == 0) by (bit_vector);
    assert(b == 0xf0 ==> (b & 0x07) == 0) by (bit_vector);
    assert(b == 0xf4 ==> (b & 0x07) == 4) by (bit_vector);
    assert(0xf0 <= b && b <= 0xf4 && b != 0xf0 ==> (b & 0x07) >= 1) by (bit_vector);
    assert(0xf0 <= b && b <= 0xf4 && b != 0xf4 ==> (b & 0x07) <= 3) by (bit_vector);
    if st.needed > 0 && st.lo <= b && b <= st.hi {
        let c6 = (b & 0x3f) as u32;
        if st.needed == 3 {
            // Entering needed == 2: bound the accumulator and rule out the
            // surrogate prefix 0xd.
            if st.acc == 0 {
                assert(b >= 0x90);
                assert(b >= 0x90 && b <= 0xbf ==> (b & 0x3f) >= 0x10) by (bit_vector);
            }
            if st.acc == 4 {
                assert(b <= 0x8f);
                assert(0x80 <= b && b <= 0x8f ==> (b & 0x3f) <= 0xf) by (bit_vector);
            }
            assert(st.acc * 64 + c6 <= 0x10f);
            assert(st.acc * 64 + c6 != 0xd);
        }
        if st.needed == 2 {
            // Entering needed == 1: the final range avoids surrogates and
            // stays below 0x110000.
            assert(st.acc * 64 + c6 <= 0x10f * 64 + 0x3f);
            if st.acc == 0xd {
                assert(b <= 0x9f);
                assert(0x80 <= b && b <= 0x9f ==> (b & 0x3f) <= 0x1f) by (bit_vector);
                assert(st.acc * 64 + c6 <= 0xd * 64 + 0x1f);
            }
            if st.acc != 0xd {
                assert(st.acc * 64 + c6 < 0x360 || st.acc * 64 + c6 > 0x37f);
            }
        }
        if st.needed == 1 {
            assert(st.acc * 64 + c6 <= 0x43ff * 64 + 0x3f);
            assert(!(0xd800 <= st.acc * 64 + c6 && st.acc * 64 + c6 <= 0xdfff));
        }
    }
}

/// Feeding a stream in two chunks decodes exactly as feeding it whole: the
/// state carried across the boundary preserves split codepoints, so the
/// concatenated outputs agree with the one-chunk decode.
pub proof fn lemma_chunked_decode(st: Utf8Stream, a: Seq<u8>, b: Seq<u8>)
    ensures
        run(st, a + b).0 == run(run(st, a).0, b).0,
        run(st, a + b).1 == run(st, a).1 + run(run(st, a).0, b).1,
    decreases a.len(),
{
    if a.len() == 0 {
        assert(a + b =~= b);
        assert(run(st, a).1 + run(run(st, a).0, b).1 =~= run(st, b).1);
    } else {
        let h = step(st, a[0]);
        assert((a + b)[0] == a[0]);
        assert((a + b).skip(1) =~= a.skip(1) + b);
        lemma_chunked_decode(h.0, a.skip(1), b);
        assert(run(st, a + b).1 =~= run(st, a).1 + run(run(st, a).0, b).1);
    }
}

/// All the bytes of a chunk list, in order.
pub open spec fn concat_chunks(chunks: Seq<Seq<u8>>) -> Seq<u8>
    decreases chunks.len(),
{
    if chunks.len() == 0 {
        seq![]
    } else {
        concat_chunks(chunks.drop_last()) + chunks.last()
    }
}

/// The decoder state and output after feeding the chunks one by one.
pub open spec fn run_chunks(st: Utf8Stream, chunks: Seq<Seq<u8>>) -> (Utf8Stream, Seq<char>)
    decreases chunks.len(),
{
    if chunks.len() == 0 {
        (st, seq![])
    } else {
        let r = run_chunks(st, chunks.drop_last());
        let h = run(r.0, chunks.last());
        (h.0, r.1 + h.1)
    }
}

/// Feeding a byte stream in arbitrarily small chunks decodes exactly as
/// feeding it whole: the concatenated chunk outputs, and the final decoder
/// state, equal those of the one-chunk decode.
pub proof fn lemma_any_chunking_decodes_alike(st: Utf8Stream, chunks: Seq<Seq<u8>>)
    ensures
        run_chunks(st, chunks).0 == run(st, concat_chunks(chunks)).0,
        run_chunks(st, chunks).1 == run(st, concat_chunks(chunks)).1,
    decreases chunks.len(),
{
    if chunks.len() == 0 {
        assert(concat_chunks(chunks) =~= Seq::<u8>::empty());
        assert(run_chunks(st, chunks).1 =~= run(st, concat_chunks(chunks)).1);
    } else {
        lemma_any_chunking_decodes_alike(st, chunks.drop_last());
        lemma_chunked_decode(st, concat_chunks(chunks.drop_last()), chunks.last());
    }
}

impl Utf8Stream {
    /// A fresh decoder with no sequence open.
    pub fn new() -> (r: Utf8Stream)
        ensures
            r == init_state(),
            wf_state(r),
    {
        Utf8Stream { needed: 0, acc: 0, lo: 0x80, hi: 0xbf }
    }

    /// Decodes one chunk, carrying any incomplete trailing sequence to the
    /// next call.
    pub fn decode_chunk(&mut self, chunk: &[u8]) -> (out: String)
        requires
            wf_state(*old(self)),
        ensures
            wf_state(*final(self)),
            *final(self) == run(*old(self), chunk@).0,
            out@ == run(*old(self), chunk@).1,
    {
        let mut out: Vec<char> = Vec::new();
        let mut i: usize = 0;
        proof {
            assert(chunk@.skip(0) =~= chunk@);
        }
        while i < chunk.len()
            invariant
                0 <= i <= chunk@.len(),
                wf_state(*self),
                run(*old(self), chunk@).0 == run(*self, chunk@.skip(i as int)).0,
                run(*old(self), chunk@).1 == out@ + run(*self, chunk@.skip(i as int)).1,
            decreases chunk@.len() - i,
        {
            let b = chunk[i];
            let ghost pre = *self;
            let ghost rem = chunk@.skip(i as int);
            proof {
                assert(rem[0] == chunk@[i as int]);
                assert(rem.skip(1) =~= chunk@.skip(i + 1));
                lemma_step_wf(pre, b);
            }
            self.push_byte(b, &mut out);
            i = i + 1;
        }
        proof {
            assert(chunk@.skip(chunk@.len() as int) =~= Seq::<u8>::empty());
        }
        chars_to_string(&out)
    }

    /// Applies one byte.
    fn push_byte(&mut self, b: u8, out: &mut Vec<char>)
        requires
            wf_state(*old(self)),
        ensures
            wf_state(*final(self)),
            *final(self) == step(*old(self), b).0,
            final(out)@ == old(out)@ + step(*old(self), b).1,
    {
        proof {
            lemma_step_wf(*old(self), b);
        }
        if self.needed == 0 {
            self.open_byte(b, out);
        } else if self.lo <= b && b <= self.hi {
            let c6: u32 = (b & 0x3f) as u32;
            proof {
                assert((b & 0x3f) <= 0x3f) by (bit_vector);
            }
            let acc2: u32 = self.acc * 64 + c6;
            if self.needed == 1 {
                let c = match char_from_u32(acc2) {
                    Some(c) => c,
                    None => {
                        proof {
                            assert(false);
                        }
                        '\u{fffd}'
                    },
                };
                proof {
                    vstd::utf8::char_u32_cast(c, acc2);
                }
                out.push(c);
                self.needed = 0;
                self.acc = 0;
                self.lo = 0x80;
                self.hi = 0xbf;
                proof {
                    assert(*final(self) == init_state());
                    assert(final(out)@ =~= old(out)@ + step(*old(self), b).1);
                }
            } else {
                self.needed = self.needed - 1;
                self.acc = acc2;
                self.lo = 0x80;
                self.hi = 0xbf;
                proof {
                    assert(final(out)@ =~= old(out)@ + step(*old(self), b).1);
                }
            }
        } else {
            out.push('\u{fffd}');
            self.needed = 0;
            self.acc = 0;
            self.lo = 0x80;
            self.hi = 0xbf;
            self.open_byte(b, out);
            proof {
                assert(final(out)@ =~= old(out)@ + step(*old(self), b).1);
            }
        }
    }

    /// Applies one byte from the open state.
    fn open_byte(&mut self, b: u8, out: &mut Vec<char>)
        requires
            old(self).needed == 0,
        ensures
            wf_state(*final(self)),
            *final(self) == step_open(b).0,
            final(out)@ == old(out)@ + step_open(b).1,
    {
        proof {
            lemma_step_wf(init_state(), b);
            assert(step(init_state(), b) == step_open(b));
        }
        if b <= 0x7f {
            out.push(b as char);
            self.needed = 0;
            self.acc = 0;
            self.lo = 0x80;
            self.hi = 0xbf;
        } else if 0xc2 <= b && b <= 0xdf {
            self.needed = 1;
            self.acc = (b & 0x1f) as u32;
            self.lo = 0x80;
            self.hi = 0xbf;
        } else if 0xe0 <= b && b <= 0xef {
            self.needed = 2;
            self.acc = (b & 0x0f) as u32;
            self.lo = if b == 0xe0 {
                0xa0
            } else {
                0x80
            };
            self.hi = if b == 0xed {
                0x9f
            } else {
                0xbf
            };
        } else if 0xf0 <= b && b <= 0xf4 {
            self.needed = 3;
            self.acc = (b & 0x07) as u32;
            self.lo = if b == 0xf0 {
                0x90
            } else {
                0x80
            };
            self.hi = if b == 0xf4 {
                0x8f
            } else {
                0xbf
            };
        } else {
            out.push('\u{fffd}');
            self.needed = 0;
            self.acc = 0;
            self.lo = 0x80;
            self.hi = 0xbf;
        }
        proof {
            assert(final(out)@ =~= old(out)@ + step_open(b).1);
        }
    }

    /// Flushes the decoder at end-of-stream: an unfinished trailing
    /// sequence becomes one replacement character, and the decoder is
    /// reset.
    pub fn finish(&mut self) -> (out: String)
        ensures
            out@ == flush_out(*old(self)),
            *final(self) == init_state(),
            wf_state(*final(self)),
    {
        let mut v: Vec<char> = Vec::new();
        if self.needed != 0 {
            v.push('\u{fffd}');
        }
        self.needed = 0;
        self.acc = 0;
        self.lo = 0x80;
        self.hi = 0xbf;
        proof {
            assert(v@ =~= flush_out(*old(self)));
        }
        chars_to_string(&v)
    }
}

} // verus!
