//! Keystroke scanner for the recording subsystem.
//!
//! User-sourced bytes are coalesced into logical lines: printable characters
//! accumulate in a buffer, backspace pops, kill-line clears, tabs and other
//! control characters are dropped, and terminal control sequences (CSI, OSC,
//! DCS/APC-style) are consumed whole so cursor movement never corrupts the
//! reconstructed line. `\r` (optionally followed by `\n`) or a bare `\n`
//! flushes the buffered line plus the terminator as one event.

use vstd::prelude::*;

verus! {

/// True for Unicode control characters (category Cc).
pub open spec fn is_control_char(c: char) -> bool {
    (c as u32) < 0x20 || (0x7f <= c as u32 && c as u32 <= 0x9f)
}

/// Characters consumed by a CSI sequence body: everything up to and
/// including the first final byte in `'@'..='~'`.
pub open spec fn csi_len(s: Seq<char>) -> int
    decreases s.len(),
{
    if s.len() == 0 {
        0
    } else if '@' <= s[0] && s[0] <= '~' {
        1
    } else {
        1 + csi_len(s.skip(1))
    }
}

/// Characters consumed by a DCS/APC-style body: everything up to and
/// including a terminating `ESC \` (string terminator).
pub open spec fn st_len(s: Seq<char>) -> int
    decreases s.len(),
{
    if s.len() == 0 {
        0
    } else if s[0] == '\u{1b}' && s.len() >= 2 && s[1] == '\\' {
        2
    } else {
        1 + st_len(s.skip(1))
    }
}

/// Characters consumed by an OSC body: everything up to and including a
/// terminating BEL or `ESC \`.
pub open spec fn osc_len(s: Seq<char>) -> int
    decreases s.len(),
{
    if s.len() == 0 {
        0
    } else if s[0] == '\u{7}' {
        1
    } else if s[0] == '\u{1b}' && s.len() >= 2 && s[1] == '\\' {
        2
    } else {
        1 + osc_len(s.skip(1))
    }
}

/// Characters consumed after a leading ESC: a full CSI, OSC or DCS/APC
/// sequence, or exactly one character for unrecognized escapes.
pub open spec fn esc_seq_len(s: Seq<char>) -> int {
    if s.len() == 0 {
        0
    } else if s[0] == '[' {
        1 + csi_len(s.skip(1))
    } else if s[0] == ']' {
        1 + osc_len(s.skip(1))
    } else if s[0] == 'P' || s[0] == '^' || s[0] == '_' {
        1 + st_len(s.skip(1))
    } else {
        1
    }
}

pub proof fn lemma_csi_len_bounds(s: Seq<char>)
    ensures
        0 <= csi_len(s) <= s.len(),
        s.len() > 0 ==> 1 <= csi_len(s),
    decreases s.len(),
{
    if s.len() > 0 && !('@' <= s[0] && s[0] <= '~') {
        lemma_csi_len_bounds(s.skip(1));
    }
}

pub proof fn lemma_st_len_bounds(s: Seq<char>)
    ensures
        0 <= st_len(s) <= s.len(),
        s.len() > 0 ==> 1 <= st_len(s),
    decreases s.len(),
{
    if s.len() > 0 && !(s[0] == '\u{1b}' && s.len() >= 2 && s[1] == '\\') {
        lemma_st_len_bounds(s.skip(1));
    }
}

pub proof fn lemma_osc_len_bounds(s: Seq<char>)
    ensures
        0 <= osc_len(s) <= s.len(),
        s.len() > 0 ==> 1 <= osc_len(s),
    decreases s.len(),
{
    if s.len() > 0 && s[0] != '\u{7}' && !(s[0] == '\u{1b}' && s.len() >= 2 && s[1] == '\\') {
        lemma_osc_len_bounds(s.skip(1));
    }
}

pub proof fn lemma_esc_seq_len_bounds(s: Seq<char>)
    ensures
        0 <= esc_seq_len(s) <= s.len(),
{
    if s.len() > 0 {
        lemma_csi_len_bounds(s.skip(1));
        lemma_osc_len_bounds(s.skip(1));
        lemma_st_len_bounds(s.skip(1));
    }
}

/// Consumes a CSI sequence body starting at `i`; returns the index just past
/// its final byte.
pub fn skip_csi(data: &Vec<char>, i: usize) -> (j: usize)
    requires
        i <= data@.len(),
    ensures
        j == i + csi_len(data@.skip(i as int)),
        i <= j <= data@.len(),
{
    proof {
        lemma_csi_len_bounds(data@.skip(i as int));
    }
    let mut j = i;
    loop
        invariant
            i <= j <= data@.len(),
            csi_len(data@.skip(i as int)) == (j - i) + csi_len(data@.skip(j as int)),
        decreases data@.len() - j,
    {
        proof {
            lemma_csi_len_bounds(data@.skip(j as int));
        }
        if j >= data.len() {
            return j;
        }
        let c = data[j];
        proof {
            assert(data@.skip(j as int)[0] == data@[j as int]);
            assert(data@.skip(j as int).skip(1) =~= data@.skip(j + 1));
            lemma_csi_len_bounds(data@.skip(j + 1));
        }
        j = j + 1;
        if '@' <= c && c <= '~' {
            return j;
        }
    }
}

/// Consumes characters up to and including an `ESC \` string terminator,
/// starting at `i`.
pub fn skip_until_st(data: &Vec<char>, i: usize) -> (j: usize)
    requires
        i <= data@.len(),
    ensures
        j == i + st_len(data@.skip(i as int)),
        i <= j <= data@.len(),
{
    proof {
        lemma_st_len_bounds(data@.skip(i as int));
    }
    let mut j = i;
    loop
        invariant
            i <= j <= data@.len(),
            st_len(data@.skip(i as int)) == (j - i) + st_len(data@.skip(j as int)),
        decreases data@.len() - j,
    {
        proof {
            lemma_st_len_bounds(data@.skip(j as int));
        }
        if j >= data.len() {
            return j;
        }
        let c = data[j];
        proof {
            assert(data@.skip(j as int)[0] == data@[j as int]);
            if j + 1 < data@.len() {
                assert(data@.skip(j as int)[1] == data@[j + 1]);
            }
            assert(data@.skip(j as int).skip(1) =~= data@.skip(j + 1));
            lemma_st_len_bounds(data@.skip(j + 1));
        }
        if c == '\u{1b}' && j + 1 < data.len() && data[j + 1] == '\\' {
            return j + 2;
        }
        j = j + 1;
    }
}

/// Consumes an OSC sequence body starting at `i`: everything up to and
/// including a BEL or an `ESC \`.
pub fn skip_osc(data: &Vec<char>, i: usize) -> (j: usize)
    requires
        i <= data@.len(),
    ensures
        j == i + osc_len(data@.skip(i as int)),
        i <= j <= data@.len(),
{
    proof {
        lemma_osc_len_bounds(data@.skip(i as int));
    }
    let mut j = i;
    loop
        invariant
            i <= j <= data@.len(),
            osc_len(data@.skip(i as int)) == (j - i) + osc_len(data@.skip(j as int)),
        decreases data@.len() - j,
    {
        proof {
            lemma_osc_len_bounds(data@.skip(j as int));
        }
        if j >= data.len() {
            return j;
        }
        let c = data[j];
        proof {
            assert(data@.skip(j as int)[0] == data@[j as int]);
            if j + 1 < data@.len() {
                assert(data@.skip(j as int)[1] == data@[j + 1]);
            }
            assert(data@.skip(j as int).skip(1) =~= data@.skip(j + 1));
            lemma_osc_len_bounds(data@.skip(j + 1));
        }
        if c == '\u{7}' {
            return j + 1;
        }
        if c == '\u{1b}' && j + 1 < data.len() && data[j + 1] == '\\' {
            return j + 2;
        }
        j = j + 1;
    }
}

/// Consumes one full escape sequence starting at `i` (the position just
/// after a leading ESC).
pub fn skip_escape_sequence(data: &Vec<char>, i: usize) -> (j: usize)
    requires
        i <= data@.len(),
    ensures
        j == i + esc_seq_len(data@.skip(i as int)),
        i <= j <= data@.len(),
{
    proof {
        lemma_esc_seq_len_bounds(data@.skip(i as int));
        if i < data@.len() {
            assert(data@.skip(i as int)[0] == data@[i as int]);
            assert(data@.skip(i as int).skip(1) =~= data@.skip(i + 1));
        }
    }
    if i >= data.len() {
        return i;
    }
    let c = data[i];
    if c == '[' {
        skip_csi(data, i + 1)
    } else if c == ']' {
        skip_osc(data, i + 1)
    } else if c == 'P' || c == '^' || c == '_' {
        skip_until_st(data, i + 1)
    } else {
        i + 1
    }
}

/// The scanner's transition on one whole input chunk: from the buffered
/// partial line and the typed characters to the new buffer and the list of
/// emitted line payloads.
pub open spec fn scan(buf: Seq<char>, input: Seq<char>) -> (Seq<char>, Seq<Seq<char>>)
    decreases input.len(),
    via scan_decreases
{
    if input.len() == 0 {
        (buf, seq![])
    } else {
        let c = input[0];
        if c == '\r' {
            let k: int = if input.len() >= 2 && input[1] == '\n' {
                2
            } else {
                1
            };
            let rest = scan(Seq::empty(), input.skip(k));
            (rest.0, seq![buf.push('\r')] + rest.1)
        } else if c == '\n' {
            let rest = scan(Seq::empty(), input.skip(1));
            (rest.0, seq![buf.push('\n')] + rest.1)
        } else if c == '\u{7f}' || c == '\u{8}' {
            scan(
                if buf.len() > 0 {
                    buf.drop_last()
                } else {
                    buf
                },
                input.skip(1),
            )
        } else if c == '\u{15}' {
            scan(Seq::empty(), input.skip(1))
        } else if c == '\t' {
            scan(buf, input.skip(1))
        } else if c == '\u{1b}' {
            let k = vstd::math::min(1 + esc_seq_len(input.skip(1)), input.len() as int);
            scan(buf, input.skip(k))
        } else if is_control_char(c) {
            scan(buf, input.skip(1))
        } else {
            scan(buf.push(c), input.skip(1))
        }
    }
}

#[via_fn]
proof fn scan_decreases(buf: Seq<char>, input: Seq<char>) {
    if input.len() > 0 {
        lemma_esc_seq_len_bounds(input.skip(1));
    }
}

/// Applies [`scan`] to the live buffer, returning the emitted line payloads
/// in order.
pub fn scan_input(buffer: &mut Vec<char>, data: &Vec<char>) -> (events: Vec<Vec<char>>)
    ensures
        final(buffer)@ == scan(old(buffer)@, data@).0,
        events@.map_values(|v: Vec<char>| v@) == scan(old(buffer)@, data@).1,
{
    let ghost buf0 = buffer@;
    let mut events: Vec<Vec<char>> = Vec::new();
    let mut i: usize = 0;
    proof {
        assert(data@.skip(0) =~= data@);
        assert(events@.map_values(|v: Vec<char>| v@) =~= Seq::<Seq<char>>::empty());
    }
    while i < data.len()
        invariant
            0 <= i <= data@.len(),
            scan(buf0, data@).0 == scan(buffer@, data@.skip(i as int)).0,
            scan(buf0, data@).1 == events@.map_values(|v: Vec<char>| v@) + scan(
                buffer@,
                data@.skip(i as int),
            ).1,
        decreases data@.len() - i,
    {
        let ghost pre_buf = buffer@;
        let ghost rem = data@.skip(i as int);
        proof {
            assert(rem[0] == data@[i as int]);
            if i + 1 < data@.len() {
                assert(rem[1] == data@[i + 1]);
            }
        }
        let c = data[i];
        if c == '\r' {
            let k: usize = if i + 1 < data.len() && data[i + 1] == '\n' {
                2
            } else {
                1
            };
            let mut line: Vec<char> = Vec::new();
            line.append(buffer);
            line.push('\r');
            events.push(line);
            proof {
                assert(rem.skip(k as int) =~= data@.skip(i + k));
                assert(events@.map_values(|v: Vec<char>| v@) =~= events@.map_values(
                    |v: Vec<char>| v@,
                ).take(events@.len() - 1) + seq![pre_buf.push('\r')]);
            }
            i = i + k;
        } else if c == '\n' {
            let mut line: Vec<char> = Vec::new();
            line.append(buffer);
            line.push('\n');
            events.push(line);
            proof {
                assert(rem.skip(1) =~= data@.skip(i + 1));
                assert(events@.map_values(|v: Vec<char>| v@) =~= events@.map_values(
                    |v: Vec<char>| v@,
                ).take(events@.len() - 1) + seq![pre_buf.push('\n')]);
            }
            i = i + 1;
        } else if c == '\u{7f}' || c == '\u{8}' {
            if buffer.len() > 0 {
                buffer.pop();
            }
            proof {
                assert(rem.skip(1) =~= data@.skip(i + 1));
            }
            i = i + 1;
        } else if c == '\u{15}' {
            buffer.clear();
            proof {
                assert(rem.skip(1) =~= data@.skip(i + 1));
            }
            i = i + 1;
        } else if c == '\t' {
            proof {
                assert(rem.skip(1) =~= data@.skip(i + 1));
            }
            i = i + 1;
        } else if c == '\u{1b}' {
            proof {
                assert(rem.skip(1) =~= data@.skip(i + 1));
                lemma_esc_seq_len_bounds(data@.skip(i + 1));
            }
            let j = skip_escape_sequence(data, i + 1);
            proof {
                let k = vstd::math::min(1 + esc_seq_len(rem.skip(1)), rem.len() as int);
                assert(rem.skip(1) =~= data@.skip(i + 1));
                assert(j == i + 1 + esc_seq_len(rem.skip(1)));
                assert(k == j - i);
                assert(rem.skip(k) =~= data@.skip(j as int));
            }
            i = j;
        } else if (c as u32) < 0x20 || (0x7f <= c as u32 && c as u32 <= 0x9f) {
            proof {
                assert(is_control_char(c));
                assert(rem.skip(1) =~= data@.skip(i + 1));
            }
            i = i + 1;
        } else {
            buffer.push(c);
            proof {
                assert(!is_control_char(c));
                assert(rem.skip(1) =~= data@.skip(i + 1));
            }
            i = i + 1;
        }
    }
    proof {
        assert(data@.skip(i as int) =~= Seq::<char>::empty());
        assert(scan(buffer@, Seq::<char>::empty()).1 =~= Seq::<Seq<char>>::empty());
        assert(scan(buf0, data@).1 =~= events@.map_values(|v: Vec<char>| v@));
    }
    events
}

/// No emitted line is longer than the buffered line plus the input that
/// produced it; the bound that keeps event encryption within the cipher's
/// message limit.
pub proof fn lemma_scan_event_lens(buf: Seq<char>, input: Seq<char>)
    ensures
        forall|k: int|
            0 <= k < scan(buf, input).1.len() ==> #[trigger] scan(buf, input).1[k].len()
                <= buf.len() + input.len(),
    decreases input.len(),
{
    if input.len() == 0 {
    } else {
        let c = input[0];
        if c == '\r' || c == '\n' {
            let k: int = if c == '\r' && input.len() >= 2 && input[1] == '\n' {
                2
            } else {
                1
            };
            let rest = scan(Seq::empty(), input.skip(k));
            lemma_scan_event_lens(Seq::empty(), input.skip(k));
            assert forall|k2: int|
                0 <= k2 < scan(buf, input).1.len() implies #[trigger] scan(buf, input).1[k2].len()
                <= buf.len() + input.len() by {
                if k2 == 0 {
                    assert(scan(buf, input).1[0].len() == buf.len() + 1);
                } else {
                    assert(scan(buf, input).1[k2] == rest.1[k2 - 1]);
                    assert(rest.1[k2 - 1].len() <= input.skip(k).len());
                }
            }
        } else {
            let (b2, k) = if c == '\u{7f}' || c == '\u{8}' {
                (
                    if buf.len() > 0 {
                        buf.drop_last()
                    } else {
                        buf
                    },
                    1int,
                )
            } else if c == '\u{15}' {
                (Seq::<char>::empty(), 1int)
            } else if c == '\t' {
                (buf, 1int)
            } else if c == '\u{1b}' {
                (buf, vstd::math::min(1 + esc_seq_len(input.skip(1)), input.len() as int))
            } else if is_control_char(c) {
                (buf, 1int)
            } else {
                (buf.push(c), 1int)
            };
            lemma_esc_seq_len_bounds(input.skip(1));
            lemma_scan_event_lens(b2, input.skip(k));
            assert(scan(buf, input).1 == scan(b2, input.skip(k)).1);
            assert forall|k2: int|
                0 <= k2 < scan(buf, input).1.len() implies #[trigger] scan(buf, input).1[k2].len()
                <= buf.len() + input.len() by {
                assert(scan(buf, input).1[k2] == scan(b2, input.skip(k)).1[k2]);
                assert(scan(b2, input.skip(k)).1[k2].len() <= b2.len() + input.skip(k).len());
            }
        }
    }
}

} // verus!

