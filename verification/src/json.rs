//! The line-oriented record encoding of the recording log: a small JSON
//! writer whose output is pinned down character by character, and a strict
//! reader for exactly that output. Any line the reader accepts re-encodes to
//! the very characters it consumed, so a parsed record is never an invention.

use vstd::prelude::*;
use crate::textutil::{all_digits, dec_digits, dec_val, digit_val, is_digit_char, push_dec_u64};

verus! {

/// Lowercase hexadecimal digit for a value below sixteen.
pub open spec fn hex_char(d: int) -> char {
    if d == 0 {
        '0'
    } else if d == 1 {
        '1'
    } else if d == 2 {
        '2'
    } else if d == 3 {
        '3'
    } else if d == 4 {
        '4'
    } else if d == 5 {
        '5'
    } else if d == 6 {
        '6'
    } else if d == 7 {
        '7'
    } else if d == 8 {
        '8'
    } else if d == 9 {
        '9'
    } else if d == 10 {
        'a'
    } else if d == 11 {
        'b'
    } else if d == 12 {
        'c'
    } else if d == 13 {
        'd'
    } else if d == 14 {
        'e'
    } else {
        'f'
    }
}

/// How one character appears inside a JSON string literal: the short escapes
/// for quote, backslash and the common control characters, `\u00xx` for the
/// remaining control characters, and the character itself otherwise.
pub open spec fn json_escape_char(c: char) -> Seq<char> {
    if c == '"' {
        seq!['\\', '"']
    } else if c == '\\' {
        seq!['\\', '\\']
    } else if c == '\u{8}' {
        seq!['\\', 'b']
    } else if c == '\t' {
        seq!['\\', 't']
    } else if c == '\n' {
        seq!['\\', 'n']
    } else if c == '\u{c}' {
        seq!['\\', 'f']
    } else if c == '\r' {
        seq!['\\', 'r']
    } else if (c as u32) < 0x20 {
        seq!['\\', 'u', '0', '0', hex_char(c as u32 as int / 16), hex_char(c as u32 as int % 16)]
    } else {
        seq![c]
    }
}

/// The body of a JSON string literal for `s`.
pub open spec fn json_escape(s: Seq<char>) -> Seq<char>
    decreases s.len(),
{
    if s.len() == 0 {
        seq![]
    } else {
        json_escape_char(s[0]) + json_escape(s.skip(1))
    }
}

/// The quoted JSON string literal for `s`.
pub open spec fn json_quote(s: Seq<char>) -> Seq<char> {
    seq!['"'] + json_escape(s) + seq!['"']
}

pub proof fn lemma_json_escape_snoc(s: Seq<char>, c: char)
    ensures
        json_escape(s.push(c)) == json_escape(s) + json_escape_char(c),
    decreases s.len(),
{
    if s.len() == 0 {
        assert(s.push(c)[0] == c);
        assert(s.push(c).skip(1) =~= Seq::<char>::empty());
        assert(json_escape(s.push(c)) == json_escape_char(c) + json_escape(s.push(c).skip(1)));
        assert(json_escape(s.push(c).skip(1)) == Seq::<char>::empty());
        assert(json_escape(s) == Seq::<char>::empty());
        assert(json_escape(s.push(c)) =~= json_escape(s) + json_escape_char(c));
    } else {
        assert(s.push(c).skip(1) =~= s.skip(1).push(c));
        lemma_json_escape_snoc(s.skip(1), c);
        assert(json_escape(s.push(c)) == json_escape_char(s[0]) + (json_escape(s.skip(1))
            + json_escape_char(c)));
        assert(json_escape_char(s[0]) + (json_escape(s.skip(1)) + json_escape_char(c)) =~= (
        json_escape_char(s[0]) + json_escape(s.skip(1))) + json_escape_char(c));
    }
}

fn hex_of(d: u32) -> (c: char)
    requires
        d < 16,
    ensures
        c == hex_char(d as int),
{
    if d == 0 {
        '0'
    } else if d == 1 {
        '1'
    } else if d == 2 {
        '2'
    } else if d == 3 {
        '3'
    } else if d == 4 {
        '4'
    } else if d == 5 {
        '5'
    } else if d == 6 {
        '6'
    } else if d == 7 {
        '7'
    } else if d == 8 {
        '8'
    } else if d == 9 {
        '9'
    } else if d == 10 {
        'a'
    } else if d == 11 {
        'b'
    } else if d == 12 {
        'c'
    } else if d == 13 {
        'd'
    } else if d == 14 {
        'e'
    } else {
        'f'
    }
}

/// Appends the escape of one character.
fn push_escaped_char(out: &mut Vec<char>, c: char)
    ensures
        final(out)@ == old(out)@ + json_escape_char(c),
{
    if c == '"' {
        out.push('\\');
        out.push('"');
    } else if c == '\\' {
        out.push('\\');
        out.push('\\');
    } else if c == '\u{8}' {
        out.push('\\');
        out.push('b');
    } else if c == '\t' {
        out.push('\\');
        out.push('t');
    } else if c == '\n' {
        out.push('\\');
        out.push('n');
    } else if c == '\u{c}' {
        out.push('\\');
        out.push('f');
    } else if c == '\r' {
        out.push('\\');
        out.push('r');
    } else if (c as u32) < 0x20 {
        out.push('\\');
        out.push('u');
        out.push('0');
        out.push('0');
        out.push(hex_of((c as u32) / 16));
        out.push(hex_of((c as u32) % 16));
    } else {
        out.push(c);
    }
    proof {
        assert(final(out)@ =~= old(out)@ + json_escape_char(c));
    }
}

/// Appends the quoted JSON string literal for `s`.
pub fn push_json_quoted(out: &mut Vec<char>, s: &Vec<char>)
    ensures
        final(out)@ == old(out)@ + json_quote(s@),
{
    let ghost base = out@;
    out.push('"');
    let mut i: usize = 0;
    while i < s.len()
        invariant
            0 <= i <= s@.len(),
            out@ == base + seq!['"'] + json_escape(s@.take(i as int)),
        decreases s@.len() - i,
    {
        proof {
            assert(s@.take(i as int).push(s@[i as int]) =~= s@.take(i + 1));
            lemma_json_escape_snoc(s@.take(i as int), s@[i as int]);
        }
        push_escaped_char(out, s[i]);
        proof {
            assert(out@ =~= base + seq!['"'] + json_escape(s@.take(i + 1)));
        }
        i = i + 1;
    }
    out.push('"');
    proof {
        assert(s@.take(s@.len() as int) =~= s@);
        assert(out@ =~= base + json_quote(s@));
    }
}

/// Appends the characters of a literal string slice.
pub fn push_lit(out: &mut Vec<char>, lit: &str)
    ensures
        final(out)@ == old(out)@ + lit@,
{
    let mut v = crate::textutil::str_chars(lit);
    out.append(&mut v);
}

/// A strictly-positive digit string with no leading zero is at least one.
proof fn lemma_dec_val_pos(s: Seq<char>)
    requires
        all_digits(s),
        s[0] != '0',
    ensures
        dec_val(s) >= 1,
    decreases s.len(),
{
    if s.len() == 1 {
        assert(digit_val(s[0]) >= 1);
    } else {
        assert(all_digits(s.take(s.len() - 1))) by {
            assert(forall|i: int|
                0 <= i < s.len() - 1 ==> s.take(s.len() - 1)[i] == s[i]);
        }
        assert(s.take(s.len() - 1)[0] == s[0]);
        lemma_dec_val_pos(s.take(s.len() - 1));
        assert(dec_val(s) == dec_val(s.take(s.len() - 1)) * 10 + digit_val(s[s.len() - 1]));
        assert(dec_val(s.take(s.len() - 1)) * 10 >= 10) by (nonlinear_arith)
            requires
                dec_val(s.take(s.len() - 1)) >= 1,
        ;
        assert(digit_val(s[s.len() - 1]) >= 0);
    }
}

/// Decimal representations are canonical: a digit string without a leading
/// zero is the rendering of its own value.
pub proof fn lemma_dec_canonical(s: Seq<char>)
    requires
        all_digits(s),
        s.len() == 1 || s[0] != '0',
    ensures
        dec_digits(dec_val(s)) == s,
    decreases s.len(),
{
    if s.len() == 1 {
        let c = s[0];
        assert(is_digit_char(c));
        assert(dec_val(s) == dec_val(s.take(0)) * 10 + digit_val(c));
        assert(s.take(0) =~= Seq::<char>::empty());
        assert(dec_val(s) == digit_val(c));
        assert(0 <= digit_val(c) < 10);
        assert(dec_digits(digit_val(c)) == seq![crate::textutil::digit_char(digit_val(c))]);
        assert(crate::textutil::digit_char(digit_val(c)) == c);
        assert(dec_digits(dec_val(s)) =~= s);
    } else {
        let p = s.take(s.len() - 1);
        let d = digit_val(s[s.len() - 1]);
        assert(all_digits(p)) by {
            assert(forall|i: int| 0 <= i < p.len() ==> p[i] == s[i]);
        }
        assert(p[0] == s[0]);
        lemma_dec_canonical(p);
        lemma_dec_val_pos(p);
        assert(dec_val(s) == dec_val(p) * 10 + d);
        assert(dec_val(p) * 10 >= 10) by (nonlinear_arith)
            requires
                dec_val(p) >= 1,
        ;
        assert(0 <= d < 10);
        assert(dec_val(s) >= 10);
        assert(dec_val(s) / 10 == dec_val(p) && dec_val(s) % 10 == d) by (nonlinear_arith)
            requires
                dec_val(s) == dec_val(p) * 10 + d,
                0 <= d < 10,
        ;
        assert(dec_digits(dec_val(s)) == dec_digits(dec_val(p)).push(
            crate::textutil::digit_char(d),
        ));
        assert(crate::textutil::digit_char(d) == s[s.len() - 1]);
        assert(dec_digits(dec_val(s)) =~= s);
    }
}

/// A digit string's value dominates every prefix's value.
proof fn lemma_dec_val_take_le(s: Seq<char>, k: int)
    requires
        forall|x: int| 0 <= x < s.len() ==> is_digit_char(s[x]),
        0 <= k <= s.len(),
    ensures
        dec_val(s) >= 0,
        dec_val(s.take(k)) <= dec_val(s),
    decreases s.len(),
{
    if s.len() == 0 {
        assert(s.take(k) =~= s);
    } else {
        let p = s.take(s.len() - 1);
        assert(forall|x: int| 0 <= x < p.len() ==> p[x] == s[x]);
        lemma_dec_val_take_le(p, if k <= p.len() {
            k
        } else {
            p.len() as int
        });
        assert(dec_val(s) == dec_val(p) * 10 + digit_val(s[s.len() - 1]));
        if k < s.len() {
            assert(s.take(k) =~= p.take(k));
        } else {
            assert(s.take(k) =~= s);
        }
    }
}

/// Reads a decimal number at position `i`: one or more digits, no leading
/// zero unless the number is zero itself. On success the consumed region is
/// exactly the canonical rendering of the returned value; any number whose
/// canonical rendering sits at `i`, ending at a non-digit or the line's
/// end, is accepted and returned.
pub fn parse_dec_u64(line: &Vec<char>, i: usize) -> (r: Option<(u64, usize)>)
    requires
        i <= line@.len(),
    ensures
        r matches Some((v, j)) ==> i < j <= line@.len() && line@.subrange(i as int, j as int)
            == dec_digits(v as int),
        forall|v2: u64|
            #![trigger dec_region_at(line@, i as int, v2)]
            dec_region_at(line@, i as int, v2) ==> (r matches Some(p) && p.0 == v2 && p.1 == i
                + dec_digits(v2 as int).len()),
{
    proof {
        assert forall|v2: u64| dec_region_at(line@, i as int, v2) implies is_digit_char(
            line@[i as int],
        ) && i < line@.len() && (line@[i as int] == '0' ==> v2 == 0) && (line@[i as int] != '0'
            ==> v2 > 0) by {
            crate::textutil::lemma_dec_round_trip(v2 as int);
            let dl = dec_digits(v2 as int).len() as int;
            assert(line@.subrange(i as int, i + dl)[0] == line@[i as int]);
            if v2 > 0 && line@[i as int] == '0' {
                assert(dec_digits(v2 as int)[0] != '0');
            }
        }
    }
    if i >= line.len() || !('0' <= line[i] && line[i] <= '9') {
        return None;
    }
    if line[i] == '0' {
        // A canonical zero is a single digit.
        if i + 1 < line.len() && '0' <= line[i + 1] && line[i + 1] <= '9' {
            proof {
                assert forall|v2: u64| dec_region_at(line@, i as int, v2) implies false by {
                    assert(v2 == 0);
                    assert(dec_digits(0) == seq!['0']);
                }
            }
            return None;
        }
        proof {
            assert(line@.subrange(i as int, i + 1) =~= seq![line@[i as int]]);
            assert(dec_digits(0) == seq!['0']);
            assert forall|v2: u64| dec_region_at(line@, i as int, v2) implies v2 == 0
                && dec_digits(v2 as int).len() == 1 by {
                assert(dec_digits(0) == seq!['0']);
            }
        }
        return Some((0, i + 1));
    }
    let mut v: u64 = 0;
    let mut j: usize = i;
    while j < line.len() && '0' <= line[j] && line[j] <= '9'
        invariant
            i <= j <= line@.len(),
            j > i ==> all_digits(line@.subrange(i as int, j as int)) && v as int == dec_val(
                line@.subrange(i as int, j as int),
            ),
            j == i ==> v == 0,
            i < line@.len() && '0' <= line@[i as int] && line@[i as int] <= '9'
                && line@[i as int] != '0',
        decreases line@.len() - j,
    {
        let c = line[j];
        let d: u64 = (c as u32 as u64) - ('0' as u32 as u64);
        proof {
            assert(digit_val(c) == d as int);
            assert(0 <= d < 10);
        }
        if v > (u64::MAX - d) / 10 {
            proof {
                // Any number rendered here fits in the type, so its prefix
                // values do too and the accumulator cannot overflow.
                assert((v as int) * 10 + d > u64::MAX as int) by (nonlinear_arith)
                    requires
                        v as int > (u64::MAX as int - d) / 10,
                        0 <= d < 10,
                ;
                assert forall|v2: u64| dec_region_at(line@, i as int, v2) implies false by {
                    crate::textutil::lemma_dec_round_trip(v2 as int);
                    let dg = dec_digits(v2 as int);
                    let dl = dg.len() as int;
                    // The consumed digits plus the current one are a prefix
                    // of the rendered number.
                    assert(forall|x: int|
                        0 <= x < dl ==> #[trigger] line@.subrange(i as int, i + dl)[x] == line@[i + x]);
                    if i + dl <= j {
                        assert(!is_digit_char(line@[i + dl]) || i + dl == line@.len());
                        if i + dl < j + 1 {
                            if i + dl == j {
                                assert(is_digit_char(line@[j as int]));
                            } else {
                                assert(all_digits(line@.subrange(i as int, j as int)));
                                assert(line@.subrange(i as int, j as int)[i + dl - i]
                                    == line@[i + dl]);
                            }
                        }
                    }
                    assert(j + 1 <= i + dl);
                    let pre2 = line@.subrange(i as int, j + 1);
                    assert(pre2 =~= dg.take(j + 1 - i));
                    lemma_dec_val_take_le(dg, j + 1 - i);
                    assert(dec_val(pre2) <= dec_val(dg));
                    assert(dec_val(dg) == v2 as int);
                    assert(pre2.take(pre2.len() - 1) =~= line@.subrange(i as int, j as int));
                    assert(dec_val(pre2) == (if j > i {
                        dec_val(line@.subrange(i as int, j as int))
                    } else {
                        0int
                    }) * 10 + digit_val(c));
                    assert(dec_val(pre2) == (v as int) * 10 + d);
                }
            }
            return None;
        }
        let ghost pre = line@.subrange(i as int, j as int);
        proof {
            assert(line@.subrange(i as int, j + 1) =~= pre.push(c));
            assert(pre.push(c).take(pre.push(c).len() - 1) =~= pre);
            if j > i {
                assert((v as int) * 10 + d <= u64::MAX as int) by (nonlinear_arith)
                    requires
                        v as int <= (u64::MAX as int - d) / 10,
                        0 <= d < 10,
                        v >= 0,
                ;
            }
        }
        v = v * 10 + d;
        j = j + 1;
        proof {
            let cur = line@.subrange(i as int, j as int);
            assert(cur == pre.push(c));
            assert(dec_val(cur) == dec_val(pre) * 10 + digit_val(c));
            assert(all_digits(cur)) by {
                assert(forall|k: int| 0 <= k < pre.len() ==> cur[k] == pre[k]);
            }
        }
    }
    proof {
        lemma_dec_canonical(line@.subrange(i as int, j as int));
        assert forall|v2: u64| dec_region_at(line@, i as int, v2) implies v == v2 && j == i
            + dec_digits(v2 as int).len() by {
            crate::textutil::lemma_dec_round_trip(v2 as int);
            let dg = dec_digits(v2 as int);
            let dl = dg.len() as int;
            assert(forall|x: int|
                0 <= x < dl ==> #[trigger] line@.subrange(i as int, i + dl)[x] == line@[i + x]);
            if j < i + dl {
                // The loop would have consumed the digit at `j`.
                assert(line@.subrange(i as int, i + dl)[j - i] == line@[j as int]);
                assert(dg[j - i] == line@[j as int]);
                assert(all_digits(dg));
                assert(is_digit_char(line@[j as int]));
            }
            if j > i + dl {
                // The boundary inside the consumed run would be a digit.
                assert(all_digits(line@.subrange(i as int, j as int)));
                assert(line@.subrange(i as int, j as int)[i + dl - i] == line@[i + dl]);
                assert(!is_digit_char(line@[i + dl]) || i + dl == line@.len());
            }
            assert(j == i + dl);
            assert(line@.subrange(i as int, j as int) =~= dg);
        }
    }
    Some((v, j))
}

/// The canonical rendering of `v` sits at position `i`, ended by the line
/// itself or by a non-digit.
pub open spec fn dec_region_at(line: Seq<char>, i: int, v: u64) -> bool {
    let dl = dec_digits(v as int).len() as int;
    &&& 0 <= i
    &&& i + dl <= line.len()
    &&& line.subrange(i, i + dl) == dec_digits(v as int)
    &&& (i + dl == line.len() || !is_digit_char(line[i + dl]))
}

/// Concatenation distributes over escaping.
proof fn lemma_json_escape_concat(a: Seq<char>, b: Seq<char>)
    ensures
        json_escape(a + b) == json_escape(a) + json_escape(b),
    decreases a.len(),
{
    if a.len() == 0 {
        assert(a + b =~= b);
        assert(json_escape(a) == Seq::<char>::empty());
        assert(json_escape(a) + json_escape(b) =~= json_escape(b));
    } else {
        assert((a + b)[0] == a[0]);
        assert((a + b).skip(1) =~= a.skip(1) + b);
        lemma_json_escape_concat(a.skip(1), b);
        assert(json_escape(a + b) == json_escape_char(a[0]) + (json_escape(a.skip(1))
            + json_escape(b)));
        assert(json_escape_char(a[0]) + (json_escape(a.skip(1)) + json_escape(b)) =~= (
        json_escape_char(a[0]) + json_escape(a.skip(1))) + json_escape(b));
    }
}

/// A quoted literal for `d` sits at position `i`.
pub open spec fn quote_region_at(line: Seq<char>, i: int, d: Seq<char>) -> bool {
    &&& 0 <= i
    &&& i + json_quote(d).len() <= line.len()
    &&& line.subrange(i, i + json_quote(d).len()) == json_quote(d)
}

/// Where the reader stands inside a quoted literal for `d`: either at the
/// closing quote, or at the start of the escape of the next character.
proof fn lemma_quote_step(line: Seq<char>, i: int, d: Seq<char>, out: Seq<char>, k: int)
    requires
        quote_region_at(line, i, d),
        i + 1 <= k <= line.len(),
        line.subrange(i + 1, k) == json_escape(out),
        out.len() <= d.len(),
        out == d.take(out.len() as int),
    ensures
        k < line.len(),
        out.len() == d.len() ==> k == i + 1 + json_escape(d).len() && line[k] == '"',
        out.len() < d.len() ==> k + json_escape_char(d[out.len() as int]).len() <= i + 1
            + json_escape(d).len() && (forall|y: int|
            0 <= y < json_escape_char(d[out.len() as int]).len() ==> line[k + y]
                == json_escape_char(d[out.len() as int])[y]),
        out.len() < d.len() ==> i + 1 + json_escape(d).len() < line.len(),
{
    let p = out.len() as int;
    let q = json_quote(d);
    assert forall|x: int| 0 <= x < q.len() implies #[trigger] line.subrange(i, i + q.len() as int)[x]
        == line[i + x] by {}
    assert(forall|x: int| 0 <= x < q.len() ==> line[i + x] == q[x]);
    assert(d =~= d.take(p) + d.skip(p));
    lemma_json_escape_concat(d.take(p), d.skip(p));
    assert(json_escape(d) == json_escape(out) + json_escape(d.skip(p)));
    assert(k - (i + 1) == json_escape(out).len());
    if p == d.len() {
        assert(d.skip(p) =~= Seq::<char>::empty());
        assert(json_escape(d.skip(p)) == Seq::<char>::empty());
        assert(json_escape(d) =~= json_escape(out));
        assert(q[1 + json_escape(d).len() as int] == '"');
        assert(line[k] == '"');
    } else {
        let ec = json_escape_char(d[p]);
        assert(d.skip(p)[0] == d[p]);
        assert(d.skip(p).skip(1) =~= d.skip(p + 1));
        assert(json_escape(d.skip(p)) == ec + json_escape(d.skip(p + 1)));
        assert(ec.len() >= 1);
        assert(json_escape(d).len() >= json_escape(out).len() + ec.len());
        assert forall|y: int| 0 <= y < ec.len() implies line[k + y] == ec[y] by {
            assert(json_escape(d)[json_escape(out).len() + y] == ec[y]);
            assert(q[1 + json_escape(out).len() + y] == json_escape(d)[json_escape(out).len()
                + y]);
            assert(line[i + (1 + json_escape(out).len() + y)] == q[1 + json_escape(out).len()
                + y]);
        }
    }
}

/// The first character of an escape is a backslash exactly for the escaped
/// set; a plain character passes through and is neither a quote, a
/// backslash nor a control character.
proof fn lemma_escape_char_head(c0: char)
    ensures
        json_escape_char(c0).len() >= 1,
        json_escape_char(c0)[0] == '\\' || (json_escape_char(c0) == seq![c0] && c0 != '"' && c0
            != '\\' && (c0 as u32) >= 0x20),
{
}

/// Reads a quoted JSON string literal at position `i`, accepting exactly the
/// escapes this crate's writer produces. On success the consumed region is
/// exactly the quoted literal for the returned characters, and every quoted
/// literal placed at `i` is accepted and returned.
#[verifier::rlimit(100)]
#[verifier::spinoff_prover]
pub fn parse_json_string(line: &Vec<char>, i: usize) -> (r: Option<(Vec<char>, usize)>)
    requires
        i <= line@.len(),
    ensures
        r matches Some((data, j)) ==> i < j <= line@.len() && line@.subrange(i as int, j as int)
            == json_quote(data@),
        forall|d: Seq<char>|
            #![trigger quote_region_at(line@, i as int, d)]
            quote_region_at(line@, i as int, d) ==> (r matches Some(p) && p.0@ == d && p.1 == i
                + json_quote(d).len()),
{
    if i >= line.len() || line[i] != '"' {
        proof {
            assert forall|d: Seq<char>|
                quote_region_at(line@, i as int, d) implies false by {
                let q = json_quote(d);
                assert(line@.subrange(i as int, i + q.len() as int)[0] == line@[i as int]);
                assert(q[0] == '"');
            }
        }
        return None;
    }
    let mut out: Vec<char> = Vec::new();
    let mut k: usize = i + 1;
    proof {
        assert forall|d: Seq<char>|
            #![trigger json_quote(d)]
            quote_region_at(line@, i as int, d) implies out@.len() <= d.len() && out@ == d.take(
            out@.len() as int,
        ) by {
            assert(d.take(0) =~= Seq::<char>::empty());
        }
    }
    loop
        invariant
            i + 1 <= k <= line@.len(),
            line@.len() >= i + 1,
            line@[i as int] == '"',
            line@.subrange(i + 1, k as int) == json_escape(out@),
            forall|d: Seq<char>|
                #![trigger json_quote(d)]
                quote_region_at(line@, i as int, d) ==> out@.len() <= d.len() && out@ == d.take(
                    out@.len() as int,
                ),
        decreases line@.len() - k,
    {
        let ghost pre_out = out@;
        proof {
            assert forall|d: Seq<char>|
                #![trigger json_quote(d)]
                quote_region_at(line@, i as int, d) implies k < line@.len() by {
                lemma_quote_step(line@, i as int, d, pre_out, k as int);
            }
        }
        if k >= line.len() {
            return None;
        }
        let c = line[k];
        if c == '"' {
            proof {
                assert(line@.subrange(i as int, (k + 1) as int) =~= seq!['"'] + json_escape(out@)
                    + seq!['"']);
                assert forall|d: Seq<char>|
                    #![trigger json_quote(d)]
                    quote_region_at(line@, i as int, d) implies pre_out == d && k + 1 == i
                    + json_quote(d).len() by {
                    lemma_quote_step(line@, i as int, d, pre_out, k as int);
                    if pre_out.len() < d.len() {
                        lemma_escape_char_head(d[pre_out.len() as int]);
                        assert(line@[k as int] == json_escape_char(d[pre_out.len() as int])[0]);
                    }
                    assert(pre_out.len() == d.len());
                    assert(pre_out =~= d);
                }
            }
            return Some((out, k + 1));
        }
        proof {
            // Not at the closing quote, so under any region hypothesis the
            // reader stands at the escape of the next character.
            assert forall|d: Seq<char>|
                #![trigger json_quote(d)]
                quote_region_at(line@, i as int, d) implies pre_out.len() < d.len() && (forall|
                    y: int,
                |
                    0 <= y < json_escape_char(d[pre_out.len() as int]).len() ==> line@[k + y]
                        == json_escape_char(d[pre_out.len() as int])[y]) by {
                lemma_quote_step(line@, i as int, d, pre_out, k as int);
            }
        }
        if c == '\\' {
            if k + 1 >= line.len() {
                proof {
                    assert forall|d: Seq<char>|
                        quote_region_at(line@, i as int, d) implies false by {
                        lemma_quote_step(line@, i as int, d, pre_out, k as int);
                        lemma_escape_char_head(d[pre_out.len() as int]);
                        assert(json_escape_char(d[pre_out.len() as int]).len() >= 2);
                    }
                }
                return None;
            }
            let e = line[k + 1];
            let ghost dp_of = |d: Seq<char>| d[pre_out.len() as int];
            if e == '"' {
                out.push('"');
            } else if e == '\\' {
                out.push('\\');
            } else if e == 'b' {
                out.push('\u{8}');
            } else if e == 't' {
                out.push('\t');
            } else if e == 'n' {
                out.push('\n');
            } else if e == 'f' {
                out.push('\u{c}');
            } else if e == 'r' {
                out.push('\r');
            } else if e == 'u' {
                if line.len() - k < 6 {
                    proof {
                        assert forall|d: Seq<char>|
                            quote_region_at(line@, i as int, d) implies false by {
                            lemma_quote_step(line@, i as int, d, pre_out, k as int);
                            lemma_escape_char_head(dp_of(d));
                            assert(line@[k as int] == json_escape_char(dp_of(d))[0]);
                            assert(json_escape_char(dp_of(d)).len() >= 2);
                            assert(line@[k + 1] == json_escape_char(dp_of(d))[1]);
                            assert(json_escape_char(dp_of(d))[1] == 'u');
                            assert(json_escape_char(dp_of(d)).len() == 6);
                        }
                    }
                    return None;
                }
                proof {
                    assert forall|d: Seq<char>|
                        quote_region_at(line@, i as int, d) implies json_escape_char(dp_of(d))
                        == seq![
                        '\\',
                        'u',
                        '0',
                        '0',
                        hex_char((dp_of(d) as u32) as int / 16),
                        hex_char((dp_of(d) as u32) as int % 16),
                    ] && (dp_of(d) as u32) < 0x20 by {
                        lemma_quote_step(line@, i as int, d, pre_out, k as int);
                        lemma_escape_char_head(dp_of(d));
                            assert(line@[k as int] == json_escape_char(dp_of(d))[0]);
                            assert(json_escape_char(dp_of(d)).len() >= 2);
                            assert(line@[k + 1] == json_escape_char(dp_of(d))[1]);
                        assert(json_escape_char(dp_of(d))[1] == 'u');
                    }
                }
                if line[k + 2] != '0' || line[k + 3] != '0' {
                    proof {
                        assert forall|d: Seq<char>|
                            quote_region_at(line@, i as int, d) implies false by {
                            lemma_quote_step(line@, i as int, d, pre_out, k as int);
                        }
                    }
                    return None;
                }
                let h1 = line[k + 4];
                let h2 = line[k + 5];
                let d1 = match hex_val(h1) {
                    Some(dd) => dd,
                    None => {
                        proof {
                            assert forall|d: Seq<char>|
                                quote_region_at(line@, i as int, d) implies false by {
                                lemma_quote_step(line@, i as int, d, pre_out, k as int);
                                assert(hex_char((dp_of(d) as u32) as int / 16) == h1);
                            }
                        }
                        return None;
                    },
                };
                let d2 = match hex_val(h2) {
                    Some(dd) => dd,
                    None => {
                        proof {
                            assert forall|d: Seq<char>|
                                quote_region_at(line@, i as int, d) implies false by {
                                lemma_quote_step(line@, i as int, d, pre_out, k as int);
                                assert(hex_char((dp_of(d) as u32) as int % 16) == h2);
                            }
                        }
                        return None;
                    },
                };
                let v: u32 = d1 * 16 + d2;
                proof {
                    assert forall|d: Seq<char>|
                        quote_region_at(line@, i as int, d) implies (dp_of(d) as u32) == v by {
                        lemma_quote_step(line@, i as int, d, pre_out, k as int);
                        let vd = (dp_of(d) as u32) as int;
                        assert(hex_char(vd / 16) == h1 && hex_char(vd % 16) == h2);
                        assert(d1 as int == vd / 16 && d2 as int == vd % 16);
                    }
                }
                if v >= 0x20 {
                    proof {
                        assert forall|d: Seq<char>|
                            quote_region_at(line@, i as int, d) implies false by {
                            lemma_quote_step(line@, i as int, d, pre_out, k as int);
                        }
                    }
                    return None;
                }
                // The writer uses short escapes for these; reject the long
                // form so every accepted region is canonical.
                if v == 0x8 || v == 0x9 || v == 0xa || v == 0xc || v == 0xd {
                    proof {
                        assert forall|d: Seq<char>|
                            quote_region_at(line@, i as int, d) implies false by {
                            lemma_quote_step(line@, i as int, d, pre_out, k as int);
                            lemma_escape_char_head(dp_of(d));
                            assert(line@[k as int] == json_escape_char(dp_of(d))[0]);
                            assert(json_escape_char(dp_of(d)).len() >= 2);
                            assert(line@[k + 1] == json_escape_char(dp_of(d))[1]);
                            // A character with a short escape never takes
                            // the \u form.
                            vstd::utf8::char_u32_cast(dp_of(d), v);
                            if v == 0x8 {
                                vstd::utf8::char_u32_cast('\u{8}', v);
                            } else if v == 0x9 {
                                vstd::utf8::char_u32_cast('\t', v);
                            } else if v == 0xa {
                                vstd::utf8::char_u32_cast('\n', v);
                            } else if v == 0xc {
                                vstd::utf8::char_u32_cast('\u{c}', v);
                            } else {
                                vstd::utf8::char_u32_cast('\r', v);
                            }
                        }
                    }
                    return None;
                }
                let ch = match low_control_char(v) {
                    Some(ch) => ch,
                    None => {
                        return None;
                    },
                };
                out.push(ch);
                proof {
                    lemma_json_escape_snoc(pre_out, ch);
                    assert(json_escape_char(ch) =~= seq![
                        '\\',
                        'u',
                        '0',
                        '0',
                        hex_char(v as int / 16),
                        hex_char(v as int % 16),
                    ]);
                    assert(hex_char(v as int / 16) == h1 && hex_char(v as int % 16) == h2) by {
                        assert(v as int / 16 == d1 as int && v as int % 16 == d2 as int);
                    }
                    assert(line@.subrange(i + 1, (k + 6) as int) =~= line@.subrange(i + 1, k as int)
                        + seq![line@[k as int], line@[k + 1], line@[k + 2], line@[k + 3], line@[k
                        + 4], line@[k + 5]]);
                    assert(line@.subrange(i + 1, (k + 6) as int) =~= json_escape(out@));
                    assert forall|d: Seq<char>|
                        #![trigger json_quote(d)]
                        quote_region_at(line@, i as int, d) implies out@.len() <= d.len() && out@
                        == d.take(out@.len() as int) by {
                        lemma_quote_step(line@, i as int, d, pre_out, k as int);
                        vstd::utf8::char_u32_cast(ch, v);
                        vstd::utf8::char_u32_cast(dp_of(d), v);
                        assert(ch == dp_of(d));
                        assert(d.take(pre_out.len() as int + 1) =~= d.take(pre_out.len() as int).push(
                            dp_of(d),
                        ));
                    }
                }
                k = k + 6;
                continue ;
            } else {
                proof {
                    assert forall|d: Seq<char>|
                        quote_region_at(line@, i as int, d) implies false by {
                        lemma_quote_step(line@, i as int, d, pre_out, k as int);
                        lemma_escape_char_head(dp_of(d));
                            assert(line@[k as int] == json_escape_char(dp_of(d))[0]);
                            assert(json_escape_char(dp_of(d)).len() >= 2);
                            assert(line@[k + 1] == json_escape_char(dp_of(d))[1]);
                        assert(json_escape_char(dp_of(d))[1] == e);
                    }
                }
                return None;
            }
            proof {
                lemma_json_escape_snoc(pre_out, out@[out@.len() - 1]);
                assert(line@.subrange(i + 1, (k + 2) as int) =~= line@.subrange(i + 1, k as int)
                    + seq![line@[k as int], line@[k + 1]]);
                assert(json_escape_char(out@[out@.len() - 1]) =~= seq![
                    line@[k as int],
                    line@[k + 1],
                ]);
                assert(line@.subrange(i + 1, (k + 2) as int) =~= json_escape(out@));
                let pushed = out@[out@.len() - 1];
                assert forall|d: Seq<char>|
                    #![trigger json_quote(d)]
                    quote_region_at(line@, i as int, d) implies out@.len() <= d.len() && out@
                    == d.take(out@.len() as int) by {
                    lemma_quote_step(line@, i as int, d, pre_out, k as int);
                    lemma_escape_char_head(dp_of(d));
                            assert(line@[k as int] == json_escape_char(dp_of(d))[0]);
                            assert(json_escape_char(dp_of(d)).len() >= 2);
                            assert(line@[k + 1] == json_escape_char(dp_of(d))[1]);
                    // The second escape character identifies the escaped
                    // character uniquely.
                    assert(json_escape_char(dp_of(d))[1] == e);
                    assert(dp_of(d) == pushed);
                    assert(d.take(pre_out.len() as int + 1) =~= d.take(pre_out.len() as int).push(
                        dp_of(d),
                    ));
                }
            }
            k = k + 2;
        } else {
            if (c as u32) < 0x20 {
                proof {
                    assert forall|d: Seq<char>|
                        quote_region_at(line@, i as int, d) implies false by {
                        lemma_quote_step(line@, i as int, d, pre_out, k as int);
                        lemma_escape_char_head(d[pre_out.len() as int]);
                        assert(line@[k as int] == json_escape_char(d[pre_out.len() as int])[0]);
                    }
                }
                return None;
            }
            out.push(c);
            proof {
                lemma_json_escape_snoc(pre_out, c);
                assert(json_escape_char(c) =~= seq![c]);
                assert(line@.subrange(i + 1, (k + 1) as int) =~= line@.subrange(i + 1, k as int)
                    + seq![line@[k as int]]);
                assert(line@.subrange(i + 1, (k + 1) as int) =~= json_escape(out@));
                assert forall|d: Seq<char>|
                    #![trigger json_quote(d)]
                    quote_region_at(line@, i as int, d) implies out@.len() <= d.len() && out@
                    == d.take(out@.len() as int) by {
                    lemma_quote_step(line@, i as int, d, pre_out, k as int);
                    lemma_escape_char_head(d[pre_out.len() as int]);
                    assert(line@[k as int] == json_escape_char(d[pre_out.len() as int])[0]);
                    assert(d[pre_out.len() as int] == c);
                    assert(d.take(pre_out.len() as int + 1) =~= d.take(pre_out.len() as int).push(c));
                }
            }
            k = k + 1;
        }
    }
}

/// The value of a lowercase hexadecimal digit character.
fn hex_val(c: char) -> (r: Option<u32>)
    ensures
        r matches Some(d) ==> d < 16 && hex_char(d as int) == c,
        r is None ==> forall|d: int| 0 <= d < 16 ==> hex_char(d) != c,
{
    if c == '0' {
        Some(0)
    } else if c == '1' {
        Some(1)
    } else if c == '2' {
        Some(2)
    } else if c == '3' {
        Some(3)
    } else if c == '4' {
        Some(4)
    } else if c == '5' {
        Some(5)
    } else if c == '6' {
        Some(6)
    } else if c == '7' {
        Some(7)
    } else if c == '8' {
        Some(8)
    } else if c == '9' {
        Some(9)
    } else if c == 'a' {
        Some(10)
    } else if c == 'b' {
        Some(11)
    } else if c == 'c' {
        Some(12)
    } else if c == 'd' {
        Some(13)
    } else if c == 'e' {
        Some(14)
    } else if c == 'f' {
        Some(15)
    } else {
        None
    }
}

/// The character with a control code point below 0x20.
fn low_control_char(v: u32) -> (r: Option<char>)
    requires
        v < 0x20,
    ensures
        r matches Some(c) ==> c as u32 == v,
        r is Some,
{
    char_from_u32(v)
}

/// Relies on `char::from_u32`: returns the character with the given code
/// point whenever it is a Unicode scalar value (not a surrogate, at most
/// 0x10FFFF), and `None` otherwise.
#[verifier::external_body]
pub fn char_from_u32(v: u32) -> (r: Option<char>)
    ensures
        r matches Some(c) ==> c as u32 == v,
        (v < 0xD800 || (0xDFFF < v && v <= 0x10FFFF)) ==> r is Some,
{
    char::from_u32(v)
}

/// Matches the characters of `lit` at position `i`; on success returns the
/// index just past them.
pub fn match_lit(line: &Vec<char>, i: usize, lit: &str) -> (r: Option<usize>)
    requires
        i <= line@.len(),
    ensures
        r matches Some(j) ==> i <= j <= line@.len() && line@.subrange(i as int, j as int) == lit@
            && j - i == lit@.len(),
        r is None ==> !(i + lit@.len() <= line@.len() && line@.subrange(
            i as int,
            i + lit@.len(),
        ) == lit@),
{
    let chars = crate::textutil::str_chars(lit);
    if line.len() - i < chars.len() {
        return None;
    }
    let end = i + chars.len();
    let mut j: usize = i;
    while j < end
        invariant
            i <= j <= end,
            chars@ == lit@,
            end == i + chars@.len(),
            end <= line@.len(),
            line@.subrange(i as int, j as int) == chars@.take(j - i),
        decreases end - j,
    {
        if line[j] != chars[j - i] {
            proof {
                // The mismatch refutes any match of the literal here.
                if i + lit@.len() <= line@.len() && line@.subrange(i as int, i + lit@.len())
                    == lit@ {
                    let ll = lit@.len() as int;
                    assert(0 <= j - i < ll);
                    assert(line@.subrange(i as int, i + ll)[j - i] == line@[i + (j - i)]);
                    assert(lit@[j - i] == line@[j as int]);
                    assert(chars@[j - i] == line@[j as int]);
                }
            }
            return None;
        }
        proof {
            assert(line@.subrange(i as int, j + 1) =~= line@.subrange(i as int, j as int).push(
                line@[j as int],
            ));
            assert(chars@.take(j - i + 1) =~= chars@.take(j - i).push(chars@[j - i]));
        }
        j = j + 1;
    }
    proof {
        assert(chars@.take(chars@.len() as int) =~= chars@);
    }
    Some(end)
}

} // verus!
