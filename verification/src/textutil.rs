//! Character-level helpers shared by the whole crate: whitespace trimming,
//! identifier checks and decimal rendering of counters and timestamps.

use vstd::prelude::*;

verus! {

/// The Unicode `White_Space` code points, the set that `str::trim` removes.
pub open spec fn is_space_char(c: char) -> bool {
    ||| c == ' '
    ||| c == '\t'
    ||| c == '\n'
    ||| c == '\r'
    ||| c == '\u{b}'
    ||| c == '\u{c}'
    ||| c == '\u{85}'
    ||| c == '\u{a0}'
    ||| c == '\u{1680}'
    ||| ('\u{2000}' <= c && c <= '\u{200a}')
    ||| c == '\u{2028}'
    ||| c == '\u{2029}'
    ||| c == '\u{202f}'
    ||| c == '\u{205f}'
    ||| c == '\u{3000}'
}

/// Decides [`is_space_char`] on a concrete character.
pub fn char_is_space(c: char) -> (b: bool)
    ensures
        b == is_space_char(c),
{
    c == ' ' || c == '\t' || c == '\n' || c == '\r' || c == '\u{b}' || c == '\u{c}'
        || c == '\u{85}' || c == '\u{a0}' || c == '\u{1680}' || ('\u{2000}' <= c && c
        <= '\u{200a}') || c == '\u{2028}' || c == '\u{2029}' || c == '\u{202f}' || c == '\u{205f}'
        || c == '\u{3000}'
}

/// Index of the first non-whitespace character, or the length when all of
/// `s` is whitespace.
pub open spec fn trim_start_idx(s: Seq<char>) -> int
    decreases s.len(),
{
    if s.len() == 0 {
        0
    } else if is_space_char(s[0]) {
        1 + trim_start_idx(s.skip(1))
    } else {
        0
    }
}

/// One past the last non-whitespace character, or 0 when all of `s` is
/// whitespace.
pub open spec fn trim_end_idx(s: Seq<char>) -> int
    decreases s.len(),
{
    if s.len() == 0 {
        0
    } else if is_space_char(s[s.len() - 1]) {
        trim_end_idx(s.take(s.len() - 1))
    } else {
        s.len() as int
    }
}

/// What `str::trim_start` leaves of `s`.
pub open spec fn spec_trim_start(s: Seq<char>) -> Seq<char> {
    s.skip(trim_start_idx(s))
}

/// What `str::trim` leaves of `s`.
pub open spec fn spec_trim(s: Seq<char>) -> Seq<char> {
    if trim_end_idx(s) <= trim_start_idx(s) {
        Seq::empty()
    } else {
        s.subrange(trim_start_idx(s), trim_end_idx(s))
    }
}

pub proof fn lemma_trim_start_idx_bounds(s: Seq<char>)
    ensures
        0 <= trim_start_idx(s) <= s.len(),
        forall|i: int| 0 <= i < trim_start_idx(s) ==> is_space_char(s[i]),
        trim_start_idx(s) < s.len() ==> !is_space_char(s[trim_start_idx(s)]),
    decreases s.len(),
{
    if s.len() > 0 && is_space_char(s[0]) {
        lemma_trim_start_idx_bounds(s.skip(1));
        assert forall|i: int| 0 <= i < trim_start_idx(s) implies is_space_char(s[i]) by {
            if i > 0 {
                assert(s.skip(1)[i - 1] == s[i]);
            }
        }
    }
}

pub proof fn lemma_trim_end_idx_bounds(s: Seq<char>)
    ensures
        0 <= trim_end_idx(s) <= s.len(),
        forall|i: int| trim_end_idx(s) <= i < s.len() ==> is_space_char(s[i]),
        trim_end_idx(s) > 0 ==> !is_space_char(s[trim_end_idx(s) - 1]),
    decreases s.len(),
{
    if s.len() > 0 && is_space_char(s[s.len() - 1]) {
        lemma_trim_end_idx_bounds(s.take(s.len() - 1));
        assert forall|i: int| trim_end_idx(s) <= i < s.len() implies is_space_char(s[i]) by {
            if i < s.len() - 1 {
                assert(s.take(s.len() - 1)[i] == s[i]);
            }
        }
    }
}

/// Trims leading and trailing whitespace from a character vector.
pub fn trim_chars(s: &Vec<char>) -> (r: Vec<char>)
    ensures
        r@ == spec_trim(s@),
{
    proof {
        lemma_trim_start_idx_bounds(s@);
        lemma_trim_end_idx_bounds(s@);
    }
    let mut start: usize = 0;
    while start < s.len() && char_is_space(s[start])
        invariant
            0 <= start <= s@.len(),
            forall|i: int| 0 <= i < start ==> is_space_char(s@[i]),
            start <= trim_start_idx(s@),
        decreases s@.len() - start,
    {
        proof {
            lemma_trim_start_idx_bounds(s@);
        }
        start = start + 1;
        proof {
            lemma_trim_start_idx_bounds(s@);
            if start > trim_start_idx(s@) {
                assert(is_space_char(s@[trim_start_idx(s@)]));
            }
        }
    }
    proof {
        lemma_trim_start_idx_bounds(s@);
        assert(start == trim_start_idx(s@));
    }
    let mut end: usize = s.len();
    while end > start && char_is_space(s[end - 1])
        invariant
            trim_start_idx(s@) <= end <= s@.len(),
            start == trim_start_idx(s@),
            forall|i: int| end <= i < s@.len() ==> is_space_char(s@[i]),
            trim_end_idx(s@) <= end,
        decreases end,
    {
        proof {
            lemma_trim_end_idx_bounds(s@);
        }
        end = end - 1;
        proof {
            lemma_trim_end_idx_bounds(s@);
            if end < trim_end_idx(s@) {
                assert(is_space_char(s@[trim_end_idx(s@) - 1]));
            }
        }
    }
    proof {
        lemma_trim_end_idx_bounds(s@);
        if end > start {
            // The loop stopped on a non-whitespace character, so `end` is
            // exactly one past the last non-whitespace character.
            assert(!is_space_char(s@[end - 1]));
            if end > trim_end_idx(s@) {
                assert(is_space_char(s@[end - 1]));
            }
            assert(end == trim_end_idx(s@));
        }
    }
    let mut out: Vec<char> = Vec::new();
    let mut i: usize = start;
    while i < end
        invariant
            start <= i <= end <= s@.len(),
            out@ == s@.subrange(start as int, i as int),
        decreases end - i,
    {
        out.push(s[i]);
        assert(out@ == s@.subrange(start as int, i + 1));
        i = i + 1;
    }
    proof {
        if end <= start {
            assert(out@ =~= spec_trim(s@));
        } else {
            assert(out@ =~= spec_trim(s@));
        }
    }
    out
}

/// Trims leading whitespace only, as `str::trim_start` does.
pub fn trim_start_chars(s: &Vec<char>) -> (r: Vec<char>)
    ensures
        r@ == spec_trim_start(s@),
{
    proof {
        lemma_trim_start_idx_bounds(s@);
    }
    let mut start: usize = 0;
    while start < s.len() && char_is_space(s[start])
        invariant
            0 <= start <= s@.len(),
            forall|i: int| 0 <= i < start ==> is_space_char(s@[i]),
            start <= trim_start_idx(s@),
        decreases s@.len() - start,
    {
        start = start + 1;
        proof {
            lemma_trim_start_idx_bounds(s@);
            if start > trim_start_idx(s@) {
                assert(is_space_char(s@[trim_start_idx(s@)]));
            }
        }
    }
    proof {
        lemma_trim_start_idx_bounds(s@);
        assert(start == trim_start_idx(s@));
    }
    let mut out: Vec<char> = Vec::new();
    let mut i: usize = start;
    while i < s.len()
        invariant
            start <= i <= s@.len(),
            out@ == s@.subrange(start as int, i as int),
        decreases s@.len() - i,
    {
        out.push(s[i]);
        assert(out@ == s@.subrange(start as int, i + 1));
        i = i + 1;
    }
    proof {
        assert(out@ =~= spec_trim_start(s@));
    }
    out
}

/// The decimal digit character for a value below ten.
pub open spec fn digit_char(d: int) -> char {
    if d == 0 {
        '0'
    } else if d == 1 {
        '1'
    } else if d == 2 {
        '2'
    } else if d == 3 {
        '3'
    } else if d == 4 {
        '4'
    } else if d == 5 {
        '5'
    } else if d == 6 {
        '6'
    } else if d == 7 {
        '7'
    } else if d == 8 {
        '8'
    } else {
        '9'
    }
}

/// The decimal rendering of `n`, most significant digit first, no sign and
/// no leading zeros (a single `'0'` for zero).
pub open spec fn dec_digits(n: int) -> Seq<char>
    decreases n,
{
    if n < 10 {
        seq![digit_char(n)]
    } else {
        dec_digits(n / 10).push(digit_char(n % 10))
    }
}

fn digit_of(d: u64) -> (c: char)
    requires
        d < 10,
    ensures
        c == digit_char(d as int),
{
    if d == 0 {
        '0'
    } else if d == 1 {
        '1'
    } else if d == 2 {
        '2'
    } else if d == 3 {
        '3'
    } else if d == 4 {
        '4'
    } else if d == 5 {
        '5'
    } else if d == 6 {
        '6'
    } else if d == 7 {
        '7'
    } else if d == 8 {
        '8'
    } else {
        '9'
    }
}

/// Appends the decimal rendering of `n` to `out`.
pub fn push_dec_u64(out: &mut Vec<char>, n: u64)
    ensures
        final(out)@ == old(out)@ + dec_digits(n as int),
    decreases n,
{
    if n < 10 {
        out.push(digit_of(n));
    } else {
        push_dec_u64(out, n / 10);
        out.push(digit_of(n % 10));
    }
}

/// True when `c` is an ASCII decimal digit.
pub open spec fn is_digit_char(c: char) -> bool {
    '0' <= c && c <= '9'
}

/// The numeric value of a digit character.
pub open spec fn digit_val(c: char) -> int {
    c as int - '0' as int
}

/// True when `s` is nonempty and all digits.
pub open spec fn all_digits(s: Seq<char>) -> bool {
    s.len() > 0 && forall|i: int| 0 <= i < s.len() ==> is_digit_char(s[i])
}

/// The value of a digit string, most significant digit first.
pub open spec fn dec_val(s: Seq<char>) -> int
    decreases s.len(),
{
    if s.len() == 0 {
        0
    } else {
        dec_val(s.take(s.len() - 1)) * 10 + digit_val(s[s.len() - 1])
    }
}

/// Rendering a number and reading the digit string back returns the number.
pub proof fn lemma_dec_round_trip(n: int)
    requires
        n >= 0,
    ensures
        all_digits(dec_digits(n)),
        dec_val(dec_digits(n)) == n,
        n > 0 ==> dec_digits(n)[0] != '0',
    decreases n,
{
    if n < 10 {
        assert(dec_digits(n) == seq![digit_char(n)]);
        assert(seq![digit_char(n)].take(0) =~= Seq::<char>::empty());
        assert(dec_val(dec_digits(n)) == dec_val(Seq::<char>::empty()) * 10 + digit_val(
            digit_char(n),
        ));
    } else {
        lemma_dec_round_trip(n / 10);
        let prefix = dec_digits(n / 10);
        let whole = dec_digits(n);
        assert(whole == prefix.push(digit_char(n % 10)));
        assert(whole.take(whole.len() - 1) =~= prefix);
        assert(dec_val(whole) == dec_val(prefix) * 10 + digit_val(digit_char(n % 10)));
        assert(digit_val(digit_char(n % 10)) == n % 10);
        assert(dec_val(whole) == (n / 10) * 10 + n % 10);
        assert(whole[0] == prefix[0]);
    }
}

/// Digit strings of equal value and no leading zeros are equal; used to show
/// that distinct counters always render as distinct session ids.
pub proof fn lemma_dec_digits_injective(a: int, b: int)
    requires
        a >= 0,
        b >= 0,
        dec_digits(a) == dec_digits(b),
    ensures
        a == b,
{
    lemma_dec_round_trip(a);
    lemma_dec_round_trip(b);
}

/// Collects the characters of a string slice.
///
/// Relies on `str::chars`: the iterator yields exactly the characters of the
/// slice, in order.
#[verifier::external_body]
pub fn str_chars(s: &str) -> (r: Vec<char>)
    ensures
        r@ == s@,
{
    s.chars().collect()
}

/// Builds an owned string from a character vector.
///
/// Relies on `String::from_iter` over characters: the resulting string holds
/// exactly the characters of the vector, in order.
#[verifier::external_body]
pub fn chars_to_string(v: &Vec<char>) -> (r: String)
    ensures
        r@ == v@,
{
    v.iter().collect()
}

/// The decimal rendering of `n` as an owned string.
pub fn u64_to_string(n: u64) -> (r: String)
    ensures
        r@ == dec_digits(n as int),
{
    let mut out: Vec<char> = Vec::new();
    push_dec_u64(&mut out, n);
    chars_to_string(&out)
}

} // verus!

verus! {

/// Index of the first newline in `s`, or -1 when there is none.
pub open spec fn first_nl(s: Seq<char>) -> int
    decreases s.len(),
{
    if s.len() == 0 {
        -1
    } else if s[0] == '\n' {
        0
    } else if first_nl(s.skip(1)) == -1 {
        -1
    } else {
        1 + first_nl(s.skip(1))
    }
}

pub proof fn lemma_first_nl(s: Seq<char>)
    ensures
        -1 <= first_nl(s) < s.len(),
        first_nl(s) == -1 ==> forall|i: int| 0 <= i < s.len() ==> s[i] != '\n',
        first_nl(s) >= 0 ==> s[first_nl(s)] == '\n' && forall|i: int|
            0 <= i < first_nl(s) ==> s[i] != '\n',
    decreases s.len(),
{
    if s.len() > 0 && s[0] != '\n' {
        lemma_first_nl(s.skip(1));
        assert forall|i: int| 0 <= i < s.len() && first_nl(s) == -1 implies s[i] != '\n' by {
            if i > 0 {
                assert(s.skip(1)[i - 1] == s[i]);
            }
        }
        if first_nl(s) >= 0 {
            assert(first_nl(s.skip(1)) >= 0);
            assert(s.skip(1)[first_nl(s.skip(1))] == s[first_nl(s)]);
            assert forall|i: int| 0 <= i < first_nl(s) implies s[i] != '\n' by {
                if i > 0 {
                    assert(s.skip(1)[i - 1] == s[i]);
                }
            }
        }
    }
}

/// The segments of `s` between newline characters; a trailing newline
/// yields a final empty segment.
pub open spec fn split_lines(s: Seq<char>) -> Seq<Seq<char>>
    decreases s.len(),
    via split_lines_decreases
{
    if first_nl(s) == -1 {
        seq![s]
    } else {
        seq![s.take(first_nl(s))] + split_lines(s.skip(first_nl(s) + 1))
    }
}

#[via_fn]
proof fn split_lines_decreases(s: Seq<char>) {
    lemma_first_nl(s);
}

/// Splits a character sequence into its newline-separated segments.
pub fn split_lines_exec(s: &Vec<char>) -> (r: Vec<Vec<char>>)
    ensures
        r@.map_values(|v: Vec<char>| v@) == split_lines(s@),
{
    let mut out: Vec<Vec<char>> = Vec::new();
    let mut cur: Vec<char> = Vec::new();
    let mut i: usize = 0;
    proof {
        assert(tail_segment(s@.take(0)) =~= Seq::<char>::empty());
        assert(tail_segment(s@.take(0)) + s@.skip(0) =~= s@);
        assert(out@.map_values(|v: Vec<char>| v@) =~= Seq::<Seq<char>>::empty());
        assert(split_lines(s@) =~= Seq::<Seq<char>>::empty() + split_lines(s@));
    }
    while i < s.len()
        invariant
            0 <= i <= s@.len(),
            cur@ == tail_segment(s@.take(i as int)),
            split_lines(s@) == out@.map_values(|v: Vec<char>| v@) + split_lines(
                tail_segment(s@.take(i as int)) + s@.skip(i as int),
            ),
            forall|k: int| 0 <= k < cur@.len() ==> cur@[k] != '\n',
        decreases s@.len() - i,
    {
        let c = s[i];
        let ghost pre_cur = cur@;
        let ghost pre_out = out@.map_values(|v: Vec<char>| v@);
        if c == '\n' {
            out.push(cur);
            cur = Vec::new();
            proof {
                let rest = pre_cur + s@.skip(i as int);
                assert(s@.skip(i as int)[0] == s@[i as int]);
                lemma_first_nl_of_clean_prefix(pre_cur, s@.skip(i as int));
                assert(first_nl(rest) == pre_cur.len());
                assert(rest.take(pre_cur.len() as int) =~= pre_cur);
                assert(rest.skip(pre_cur.len() as int + 1) =~= s@.skip(i + 1));
                assert(split_lines(rest) == seq![pre_cur] + split_lines(s@.skip(i + 1)));
                assert(out@.map_values(|v: Vec<char>| v@) =~= pre_out + seq![pre_cur]);
                assert((s@.take(i + 1))[i as int] == '\n');
                assert(s@.take(i + 1).len() == i + 1);
                assert(tail_segment(s@.take(i + 1)) =~= Seq::<char>::empty());
                assert(tail_segment(s@.take(i + 1)) + s@.skip(i + 1) =~= s@.skip(i + 1));
                assert(pre_out + (seq![pre_cur] + split_lines(s@.skip(i + 1))) =~= (pre_out
                    + seq![pre_cur]) + split_lines(s@.skip(i + 1)));
            }
        } else {
            cur.push(c);
            proof {
                assert((s@.take(i + 1))[i as int] == c);
                assert(s@.take(i + 1).len() == i + 1);
                assert((s@.take(i + 1)).take(i as int) =~= s@.take(i as int));
                assert(tail_segment(s@.take(i + 1)) =~= pre_cur.push(c));
                assert(pre_cur + s@.skip(i as int) =~= (pre_cur.push(c)) + s@.skip(i + 1));
            }
        }
        i = i + 1;
    }
    let ghost cur_final = cur@;
    out.push(cur);
    proof {
        let last = tail_segment(s@.take(s@.len() as int));
        assert(s@.take(s@.len() as int) =~= s@);
        assert(cur_final == last);
        assert(s@.skip(s@.len() as int) =~= Seq::<char>::empty());
        assert(last + s@.skip(s@.len() as int) =~= last);
        lemma_first_nl_of_clean_prefix(cur_final, Seq::<char>::empty());
        assert(cur_final + Seq::<char>::empty() =~= last);
        assert(first_nl(Seq::<char>::empty()) == -1);
        assert(first_nl(last) == -1);
        assert(split_lines(last) == seq![last]);
        assert(out@.map_values(|v: Vec<char>| v@) =~= split_lines(s@));
    }
    out
}

/// The characters after the last newline of `s` (all of `s` when it has
/// none).
pub open spec fn tail_segment(s: Seq<char>) -> Seq<char>
    decreases s.len(),
{
    if s.len() == 0 {
        Seq::empty()
    } else if s[s.len() - 1] == '\n' {
        Seq::empty()
    } else {
        tail_segment(s.take(s.len() - 1)).push(s[s.len() - 1])
    }
}

/// A newline-free prefix shifts the first newline of what follows it.
proof fn lemma_first_nl_of_clean_prefix(p: Seq<char>, rest: Seq<char>)
    requires
        forall|k: int| 0 <= k < p.len() ==> p[k] != '\n',
    ensures
        rest.len() > 0 && rest[0] == '\n' ==> first_nl(p + rest) == p.len(),
        first_nl(rest) == -1 ==> first_nl(p + rest) == -1,
    decreases p.len(),
{
    if p.len() == 0 {
        assert(p + rest =~= rest);
        if rest.len() > 0 && rest[0] == '\n' {
            assert(first_nl(rest) == 0);
        }
    } else {
        let q = p.skip(1);
        assert(forall|k: int| 0 <= k < q.len() ==> q[k] == p[k + 1]);
        lemma_first_nl_of_clean_prefix(q, rest);
        assert((p + rest).skip(1) =~= q + rest);
        assert((p + rest)[0] == p[0]);
        if rest.len() > 0 && rest[0] == '\n' {
            assert(first_nl(q + rest) == q.len());
            assert(first_nl(p + rest) == 1 + first_nl(q + rest));
        }
    }
}

} // verus!

verus! {

/// The byte width of one character's UTF-8 encoding.
pub fn char_utf8_len(c: char) -> (r: u8)
    ensures
        r as int == vstd::utf8::encode_scalar(c as u32).len(),
        1 <= r <= 4,
{
    proof {
        vstd::utf8::char_is_scalar(c);
    }
    if (c as u32) < 0x80 {
        1
    } else if (c as u32) < 0x800 {
        2
    } else if (c as u32) < 0x10000 {
        3
    } else {
        4
    }
}

/// A character sequence UTF-8-encodes to at least one and at most four
/// bytes per character.
pub proof fn lemma_encode_utf8_len(s: Seq<char>)
    ensures
        s.len() <= vstd::utf8::encode_utf8(s).len() <= 4 * s.len(),
    decreases s.len(),
{
    if s.len() > 0 {
        lemma_encode_utf8_len(s.drop_first());
    }
}

/// Appending one character appends its scalar encoding.
pub proof fn lemma_encode_utf8_snoc(s: Seq<char>, c: char)
    ensures
        vstd::utf8::encode_utf8(s.push(c)) == vstd::utf8::encode_utf8(s) + vstd::utf8::encode_scalar(
            c as u32,
        ),
    decreases s.len(),
{
    if s.len() == 0 {
        assert(s.push(c)[0] == c);
        assert(s.push(c).drop_first() =~= Seq::<char>::empty());
        assert(vstd::utf8::encode_utf8(s.push(c)) == vstd::utf8::encode_scalar(c as u32)
            + vstd::utf8::encode_utf8(s.push(c).drop_first()));
        assert(vstd::utf8::encode_utf8(Seq::<char>::empty()) == Seq::<u8>::empty());
        assert(vstd::utf8::encode_utf8(s) == Seq::<u8>::empty());
        assert(vstd::utf8::encode_utf8(s.push(c)) =~= vstd::utf8::encode_utf8(s)
            + vstd::utf8::encode_scalar(c as u32));
    } else {
        assert(s.push(c)[0] == s[0]);
        assert(s.push(c).drop_first() =~= s.drop_first().push(c));
        lemma_encode_utf8_snoc(s.drop_first(), c);
        assert(vstd::utf8::encode_utf8(s.push(c)) == vstd::utf8::encode_scalar(s[0] as u32) + (
        vstd::utf8::encode_utf8(s.drop_first()) + vstd::utf8::encode_scalar(c as u32)));
        assert(vstd::utf8::encode_scalar(s[0] as u32) + (vstd::utf8::encode_utf8(s.drop_first())
            + vstd::utf8::encode_scalar(c as u32)) =~= (vstd::utf8::encode_scalar(s[0] as u32)
            + vstd::utf8::encode_utf8(s.drop_first())) + vstd::utf8::encode_scalar(c as u32));
    }
}

/// Sums the UTF-8 byte width of a character vector, saturating at the
/// integer limit.
pub fn utf8_byte_len(s: &Vec<char>) -> (r: u64)
    ensures
        r as int == vstd::math::min(
            vstd::utf8::encode_utf8(s@).len() as int,
            u64::MAX as int,
        ),
{
    let mut total: u64 = 0;
    let mut i: usize = 0;
    proof {
        assert(s@.take(0) =~= Seq::<char>::empty());
    }
    while i < s.len()
        invariant
            0 <= i <= s@.len(),
            total as int == vstd::math::min(
                vstd::utf8::encode_utf8(s@.take(i as int)).len() as int,
                u64::MAX as int,
            ),
        decreases s@.len() - i,
    {
        let w = char_utf8_len(s[i]);
        proof {
            assert(s@.take(i as int).push(s@[i as int]) =~= s@.take(i + 1));
            lemma_encode_utf8_snoc(s@.take(i as int), s@[i as int]);
        }
        total = if total > u64::MAX - (w as u64) {
            u64::MAX
        } else {
            total + (w as u64)
        };
        i = i + 1;
    }
    proof {
        assert(s@.take(s@.len() as int) =~= s@);
    }
    total
}

} // verus!
