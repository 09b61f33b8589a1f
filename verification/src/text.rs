//! The text of a table as a sequence of bytes: lines, fields, tokens and numbers.

use vstd::prelude::*;
use vstd::slice::slice_subrange;

verus! {

/// Ends a line.
pub const LINE_FEED: u8 = 0x0A;

/// May stand before the line feed that ends a line.
pub const CARRIAGE_RETURN: u8 = 0x0D;

/// Separates the fields of a line.
pub const SEMICOLON: u8 = 0x3B;

/// Starts a remark, and the commentary behind a record.
pub const HASH: u8 = 0x23;

/// Starts a line of directions.
pub const AT_SIGN: u8 = 0x40;

/// Starts a group of weights that is variable.
pub const ASTERISK: u8 = 0x2A;

/// Separates the levels of a group of weights.
pub const FULL_STOP: u8 = 0x2E;

/// May start a number.
pub const PLUS_SIGN: u8 = 0x2B;

/// Marks a decomposition that is not canonical.
pub const LESS_THAN: u8 = 0x3C;

/// The index of the first occurrence of a byte, or the length where it does not occur.
pub open spec fn first_index(s: Seq<u8>, b: u8) -> nat
    decreases s.len(),
{
    if s.len() == 0 || s[0] == b {
        0
    } else {
        1 + first_index(s.skip(1), b)
    }
}

/// What stands before the first occurrence of a byte: everything, where it does not occur.
pub open spec fn before(s: Seq<u8>, b: u8) -> Seq<u8> {
    s.take(first_index(s, b) as int)
}

/// What stands after the first occurrence of a byte, where it occurs.
pub open spec fn after(s: Seq<u8>, b: u8) -> Option<Seq<u8>> {
    let i = first_index(s, b);
    if i < s.len() {
        Some(s.skip(i as int + 1))
    } else {
        None
    }
}

/// The field with the given number (from 0) of a line whose fields are separated by
/// semicolons.
pub open spec fn field(line: Seq<u8>, n: nat) -> Option<Seq<u8>>
    decreases n,
{
    if n == 0 {
        Some(before(line, SEMICOLON))
    } else {
        match after(line, SEMICOLON) {
            None => None,
            Some(rest) => field(rest, (n - 1) as nat),
        }
    }
}

/// A line without the carriage return that may end it.
pub open spec fn chomp(s: Seq<u8>) -> Seq<u8> {
    if s.len() > 0 && s.last() == CARRIAGE_RETURN {
        s.drop_last()
    } else {
        s
    }
}

/// The lines of a text. A line ends with a line feed, or with a carriage return and a line
/// feed, neither of which belongs to it; the last line may lack its end. A text that ends with
/// a line feed has no further, empty line after it.
pub open spec fn lines(s: Seq<u8>) -> Seq<Seq<u8>>
    decreases s.len(),
{
    if s.len() == 0 {
        Seq::empty()
    } else {
        let n = first_index(s, LINE_FEED);
        if n < s.len() {
            seq![chomp(s.take(n as int))] + lines(s.skip(n as int + 1))
        } else {
            seq![s]
        }
    }
}

/// The parts of a text that a sequence of index ranges cuts out.
pub open spec fn slices(s: Seq<u8>, ranges: Seq<(usize, usize)>) -> Seq<Seq<u8>> {
    ranges.map_values(|r: (usize, usize)| s.subrange(r.0 as int, r.1 as int))
}

/// One of the digits 0 to 9.
pub open spec fn is_decimal_digit(b: u8) -> bool {
    0x30 <= b <= 0x39
}

/// A digit of a token: a decimal digit or one of the capital letters A to F.
pub open spec fn is_token_digit(b: u8) -> bool {
    is_decimal_digit(b) || 0x41 <= b <= 0x46
}

/// A byte that a token may hold: a token digit, or, in a group of weights, an asterisk or a
/// full stop.
pub open spec fn accepts(wide: bool, b: u8) -> bool {
    is_token_digit(b) || (wide && (b == ASTERISK || b == FULL_STOP))
}

/// The number of accepted bytes at the start of a text, counted up to a maximum.
pub open spec fn run_len(s: Seq<u8>, wide: bool, max: nat) -> nat
    decreases max,
{
    if max == 0 || s.len() == 0 || !accepts(wide, s[0]) {
        0
    } else {
        1 + run_len(s.skip(1), wide, (max - 1) as nat)
    }
}

/// The tokens of a text, from left to right: a token is a run of `min` to `max` accepted
/// bytes, as long as it can be, and the next token is looked for behind it. Where no token
/// starts at a byte, the search goes on with the next byte.
pub open spec fn tokens(s: Seq<u8>, wide: bool, min: nat, max: nat) -> Seq<Seq<u8>>
    decreases s.len(),
    via tokens_decreases
{
    if s.len() == 0 || min == 0 {
        Seq::empty()
    } else {
        let n = run_len(s, wide, max);
        if n >= min {
            seq![s.take(n as int)] + tokens(s.skip(n as int), wide, min, max)
        } else {
            tokens(s.skip(1), wide, min, max)
        }
    }
}

#[via_fn]
proof fn tokens_decreases(s: Seq<u8>, wide: bool, min: nat, max: nat) {
    lemma_run_len_bounds(s, wide, max);
}

/// The value of a hexadecimal digit, in either case; 0 for any other byte.
pub open spec fn digit_value(b: u8) -> nat {
    if is_decimal_digit(b) {
        (b - 0x30) as nat
    } else if 0x41 <= b <= 0x46 {
        (b - 0x41 + 10) as nat
    } else if 0x61 <= b <= 0x66 {
        (b - 0x61 + 10) as nat
    } else {
        0
    }
}

/// A hexadecimal digit, in either case.
pub open spec fn is_digit(b: u8) -> bool {
    is_token_digit(b) || 0x61 <= b <= 0x66
}

/// The number that a sequence of hexadecimal digits denotes, the first digit being the most
/// significant.
pub open spec fn hex_value(s: Seq<u8>) -> nat
    decreases s.len(),
{
    if s.len() == 0 {
        0
    } else {
        16 * hex_value(s.drop_last()) + digit_value(s.last())
    }
}

/// Every byte is a hexadecimal digit.
pub open spec fn all_digits(s: Seq<u8>) -> bool {
    forall|i: int| 0 <= i < s.len() ==> is_digit(#[trigger] s[i])
}

/// A text without the plus sign that may start it.
pub open spec fn unsigned_part(s: Seq<u8>) -> Seq<u8> {
    if s.len() > 0 && s[0] == PLUS_SIGN {
        s.skip(1)
    } else {
        s
    }
}

/// The 32-bit number that a field denotes: an optional plus sign, then one or more
/// hexadecimal digits in either case, whose value fits 32 bits. Anything else denotes no
/// number.
pub open spec fn number(s: Seq<u8>) -> Option<u32> {
    let d = unsigned_part(s);
    if d.len() > 0 && all_digits(d) && hex_value(d) <= u32::MAX {
        Some(hex_value(d) as u32)
    } else {
        None
    }
}

/// The code points that a text names: the values of its tokens of four or five digits.
pub open spec fn code_points(s: Seq<u8>) -> Seq<u32> {
    tokens(s, false, 4, 5).map_values(|t: Seq<u8>| hex_value(t) as u32)
}

/// The groups of weights that a text holds: its tokens of fifteen bytes, each a digit, an
/// asterisk or a full stop.
pub open spec fn groups(s: Seq<u8>) -> Seq<Seq<u8>> {
    tokens(s, true, 15, 15)
}

/// The levels that a group of weights holds: the values of its tokens of four digits.
pub open spec fn levels(group: Seq<u8>) -> Seq<u16> {
    tokens(group, false, 4, 4).map_values(|t: Seq<u8>| hex_value(t) as u16)
}

/// 16 to the power of `n`.
pub open spec fn pow16(n: nat) -> nat
    decreases n,
{
    if n == 0 {
        1
    } else {
        16 * pow16((n - 1) as nat)
    }
}

/// The first occurrence lies within the text or at its end, holds the byte where it lies
/// within, and has no occurrence before it.
pub proof fn lemma_first_index_bounds(s: Seq<u8>, b: u8)
    ensures
        first_index(s, b) <= s.len(),
        first_index(s, b) < s.len() ==> s[first_index(s, b) as int] == b,
        forall|j: int| 0 <= j < first_index(s, b) ==> s[j] != b,
    decreases s.len(),
{
    if s.len() > 0 && s[0] != b {
        let t = s.skip(1);
        lemma_first_index_bounds(t, b);
        assert forall|j: int| 0 <= j < first_index(s, b) implies s[j] != b by {
            if j > 0 {
                assert(s[j] == t[j - 1]);
            }
        }
    }
}

/// The first occurrence is the one index that holds the byte with none before it.
pub proof fn lemma_first_index_is(s: Seq<u8>, b: u8, i: int)
    requires
        0 <= i <= s.len(),
        i < s.len() ==> s[i] == b,
        forall|j: int| 0 <= j < i ==> s[j] != b,
    ensures
        first_index(s, b) == i,
    decreases s.len(),
{
    if s.len() > 0 && s[0] != b {
        lemma_first_index_is(s.skip(1), b, i - 1);
    }
}

/// The run is within the text and the maximum, holds accepted bytes only, and ends at the
/// maximum, at the end of the text or before a byte that is not accepted.
pub proof fn lemma_run_len_bounds(s: Seq<u8>, wide: bool, max: nat)
    ensures
        run_len(s, wide, max) <= s.len(),
        run_len(s, wide, max) <= max,
        forall|j: int| 0 <= j < run_len(s, wide, max) ==> accepts(wide, #[trigger] s[j]),
        run_len(s, wide, max) < max && run_len(s, wide, max) < s.len() ==> !accepts(
            wide,
            s[run_len(s, wide, max) as int],
        ),
    decreases max,
{
    if max > 0 && s.len() > 0 && accepts(wide, s[0]) {
        let t = s.skip(1);
        lemma_run_len_bounds(t, wide, (max - 1) as nat);
        assert forall|j: int| 0 <= j < run_len(s, wide, max) implies accepts(
            wide,
            #[trigger] s[j],
        ) by {
            if j > 0 {
                assert(s[j] == t[j - 1]);
            }
        }
    }
}

/// The run is the one length, up to the maximum, with accepted bytes before it and none at
/// it.
pub proof fn lemma_run_len_is(s: Seq<u8>, wide: bool, max: nat, n: int)
    requires
        0 <= n <= s.len(),
        n <= max,
        forall|j: int| 0 <= j < n ==> accepts(wide, #[trigger] s[j]),
        n < max && n < s.len() ==> !accepts(wide, s[n]),
    ensures
        run_len(s, wide, max) == n,
    decreases max,
{
    if max > 0 && s.len() > 0 && accepts(wide, s[0]) {
        lemma_run_len_is(s.skip(1), wide, (max - 1) as nat, n - 1);
    }
}

/// The powers of 16 are positive and grow with the exponent.
pub proof fn lemma_pow16_increases(a: nat, b: nat)
    requires
        a <= b,
    ensures
        pow16(a) <= pow16(b),
        pow16(a) > 0,
    decreases b,
{
    if a < b {
        lemma_pow16_increases(a, (b - 1) as nat);
    } else if a > 0 {
        lemma_pow16_increases((a - 1) as nat, (b - 1) as nat);
    }
}

/// A number is at least the number that any of its prefixes denotes.
pub proof fn lemma_hex_value_prefix(s: Seq<u8>, n: int)
    requires
        0 <= n <= s.len(),
    ensures
        hex_value(s.take(n)) <= hex_value(s),
    decreases s.len() - n,
{
    if n == s.len() {
        assert(s.take(n) =~= s);
    } else {
        lemma_hex_value_prefix(s, n + 1);
        assert(s.take(n + 1).drop_last() =~= s.take(n));
    }
}

/// A text has at most as many lines as bytes.
pub proof fn lemma_lines_count(s: Seq<u8>)
    ensures
        lines(s).len() <= s.len(),
    decreases s.len(),
{
    if s.len() > 0 {
        let n = first_index(s, LINE_FEED);
        if n < s.len() {
            lemma_lines_count(s.skip(n as int + 1));
        }
    }
}

/// A run of `min` to `max` accepted bytes.
pub open spec fn is_token(t: Seq<u8>, wide: bool, min: nat, max: nat) -> bool {
    &&& min <= t.len() <= max
    &&& forall|j: int| 0 <= j < t.len() ==> accepts(wide, #[trigger] t[j])
}

/// Every token is a run of `min` to `max` accepted bytes.
pub proof fn lemma_tokens_shape(s: Seq<u8>, wide: bool, min: nat, max: nat)
    ensures
        forall|i: int|
            0 <= i < tokens(s, wide, min, max).len() ==> is_token(
                #[trigger] tokens(s, wide, min, max)[i],
                wide,
                min,
                max,
            ),
    decreases s.len(),
{
    if s.len() > 0 && min > 0 {
        lemma_run_len_bounds(s, wide, max);
        let n = run_len(s, wide, max);
        let all = tokens(s, wide, min, max);
        if n >= min {
            let rest = tokens(s.skip(n as int), wide, min, max);
            lemma_tokens_shape(s.skip(n as int), wide, min, max);
            assert(is_token(s.take(n as int), wide, min, max));
            assert forall|i: int| 0 <= i < all.len() implies is_token(
                #[trigger] all[i],
                wide,
                min,
                max,
            ) by {
                if i > 0 {
                    assert(all[i] == rest[i - 1]);
                }
            }
        } else {
            lemma_tokens_shape(s.skip(1), wide, min, max);
            assert(all == tokens(s.skip(1), wide, min, max));
        }
    }
}

/// Finds the first occurrence of a byte at or after an index.
pub fn find_byte(s: &[u8], from: usize, b: u8) -> (i: usize)
    requires
        from <= s.len(),
    ensures
        from <= i <= s.len(),
        i == from + first_index(s@.skip(from as int), b),
{
    let mut i = from;
    while i < s.len() && s[i] != b
        invariant
            from <= i <= s.len(),
            forall|j: int| from <= j < i ==> s@[j] != b,
        decreases s.len() - i,
    {
        i += 1;
    }
    proof {
        lemma_first_index_is(s@.skip(from as int), b, i - from);
    }
    i
}

/// Cuts a text into its lines.
pub fn split_lines(data: &[u8]) -> (out: Vec<(usize, usize)>)
    ensures
        slices(data@, out@) == lines(data@),
        forall|i: int| 0 <= i < out.len() ==> (#[trigger] out[i]).0 <= out[i].1 <= data.len(),
{
    let mut out: Vec<(usize, usize)> = Vec::new();
    let mut pos: usize = 0;
    assert(data@.skip(0) =~= data@);
    while pos < data.len()
        invariant
            pos <= data.len(),
            lines(data@) =~= slices(data@, out@) + lines(data@.skip(pos as int)),
            forall|i: int| 0 <= i < out.len() ==> (#[trigger] out[i]).0 <= out[i].1 <= data.len(),
        decreases data.len() - pos,
    {
        let n = find_byte(data, pos, LINE_FEED);
        let ghost rest = data@.skip(pos as int);
        if n < data.len() {
            let end = if n > pos && data[n - 1] == CARRIAGE_RETURN {
                n - 1
            } else {
                n
            };
            out.push((pos, end));
            proof {
                assert(chomp(rest.take(n - pos)) =~= data@.subrange(pos as int, end as int));
                assert(rest.skip(n - pos + 1) =~= data@.skip(n + 1));
            }
            pos = n + 1;
        } else {
            out.push((pos, n));
            pos = n;
        }
    }
    out
}

/// Finds the field with the given number (from 0) of a line.
pub fn field_range(line: &[u8], n: usize) -> (r: Option<(usize, usize)>)
    ensures
        match r {
            Some((a, b)) => a <= b <= line.len() && field(line@, n as nat) == Some(
                line@.subrange(a as int, b as int),
            ),
            None => field(line@, n as nat) is None,
        },
{
    let mut pos: usize = 0;
    let mut k: usize = 0;
    assert(line@.skip(0) =~= line@);
    loop
        invariant
            pos <= line.len(),
            k <= n,
            field(line@, n as nat) == field(line@.skip(pos as int), (n - k) as nat),
        decreases n - k,
    {
        let i = find_byte(line, pos, SEMICOLON);
        let ghost rest = line@.skip(pos as int);
        if k == n {
            return Some((pos, i));
        }
        if i == line.len() {
            return None;
        }
        proof {
            assert(rest.skip(i - pos + 1) =~= line@.skip(i + 1));
        }
        pos = i + 1;
        k += 1;
    }
}

/// Counts the accepted bytes at an index, up to a maximum.
pub fn run_at(s: &[u8], from: usize, wide: bool, max: usize) -> (n: usize)
    requires
        from <= s.len(),
    ensures
        n == run_len(s@.skip(from as int), wide, max as nat),
        from + n <= s.len(),
        n <= max,
        forall|j: int| from <= j < from + n ==> accepts(wide, #[trigger] s@[j]),
{
    let mut n: usize = 0;
    while n < max && from + n < s.len() && is_accepted(wide, s[from + n])
        invariant
            n <= max,
            from + n <= s.len(),
            forall|j: int| from <= j < from + n ==> accepts(wide, #[trigger] s@[j]),
        decreases max - n,
    {
        n += 1;
    }
    proof {
        lemma_run_len_is(s@.skip(from as int), wide, max as nat, n as int);
    }
    n
}

/// Tells whether a token may hold a byte.
pub fn is_accepted(wide: bool, b: u8) -> (r: bool)
    ensures
        r == accepts(wide, b),
{
    (0x30 <= b && b <= 0x39) || (0x41 <= b && b <= 0x46) || (wide && (b == ASTERISK || b
        == FULL_STOP))
}

/// Finds the tokens of a text.
pub(crate) fn scan(s: &[u8], wide: bool, min: usize, max: usize) -> (out: Vec<(usize, usize)>)
    requires
        0 < min <= max,
    ensures
        slices(s@, out@) == tokens(s@, wide, min as nat, max as nat),
        forall|i: int|
            0 <= i < out.len() ==> {
                let r = #[trigger] out[i];
                &&& r.0 <= r.1 <= s.len()
                &&& min <= r.1 - r.0 <= max
                &&& forall|j: int| r.0 <= j < r.1 ==> accepts(wide, #[trigger] s@[j])
            },
{
    let mut out: Vec<(usize, usize)> = Vec::new();
    let mut pos: usize = 0;
    assert(s@.skip(0) =~= s@);
    while pos < s.len()
        invariant
            0 < min <= max,
            pos <= s.len(),
            tokens(s@, wide, min as nat, max as nat) =~= slices(s@, out@) + tokens(
                s@.skip(pos as int),
                wide,
                min as nat,
                max as nat,
            ),
            forall|i: int|
                0 <= i < out.len() ==> {
                    let r = #[trigger] out[i];
                    &&& r.0 <= r.1 <= s.len()
                    &&& min <= r.1 - r.0 <= max
                    &&& forall|j: int| r.0 <= j < r.1 ==> accepts(wide, #[trigger] s@[j])
                },
        decreases s.len() - pos,
    {
        let n = run_at(s, pos, wide, max);
        let ghost rest = s@.skip(pos as int);
        if n >= min {
            out.push((pos, pos + n));
            proof {
                assert(rest.take(n as int) =~= s@.subrange(pos as int, pos + n));
                assert(rest.skip(n as int) =~= s@.skip(pos + n));
            }
            pos = pos + n;
        } else {
            proof {
                assert(rest.skip(1) =~= s@.skip(pos + 1));
            }
            pos = pos + 1;
        }
    }
    out
}

/// Reads the value of a token of at most seven digits.
pub(crate) fn token_value(s: &[u8], from: usize, to: usize) -> (v: u32)
    requires
        from <= to <= s.len(),
        to - from <= 7,
        forall|j: int| from <= j < to ==> is_token_digit(#[trigger] s@[j]),
    ensures
        v == hex_value(s@.subrange(from as int, to as int)),
        v < pow16((to - from) as nat),
{
    let mut v: u32 = 0;
    let mut i: usize = from;
    while i < to
        invariant
            from <= i <= to <= s.len(),
            to - from <= 7,
            forall|j: int| from <= j < to ==> is_token_digit(#[trigger] s@[j]),
            v == hex_value(s@.subrange(from as int, i as int)),
            v < pow16((i - from) as nat),
        decreases to - i,
    {
        let b = s[i];
        let d: u32 = if b <= 0x39 {
            (b - 0x30) as u32
        } else {
            (b - 0x41 + 10) as u32
        };
        proof {
            reveal_with_fuel(pow16, 8);
            assert(pow16((i - from) as nat) <= pow16(6)) by {
                lemma_pow16_increases((i - from) as nat, 6);
            }
            assert(s@.subrange(from as int, i + 1).drop_last() =~= s@.subrange(
                from as int,
                i as int,
            ));
        }
        v = v * 16 + d;
        i += 1;
    }
    v
}

/// Reads a field as a 32-bit hexadecimal number.
pub fn parse_number(s: &[u8]) -> (r: Option<u32>)
    ensures
        r == number(s@),
{
    let start: usize = if s.len() > 0 && s[0] == PLUS_SIGN {
        1
    } else {
        0
    };
    let ghost d = unsigned_part(s@);
    if start == s.len() {
        return None;
    }
    let mut v: u32 = 0;
    let mut i: usize = start;
    while i < s.len()
        invariant
            start <= i <= s.len(),
            start < s.len(),
            d == unsigned_part(s@),
            d == s@.skip(start as int),
            all_digits(d.take(i - start)),
            v == hex_value(d.take(i - start)),
        decreases s.len() - i,
    {
        let b = s[i];
        let digit: Option<u32> = if 0x30 <= b && b <= 0x39 {
            Some((b - 0x30) as u32)
        } else if 0x41 <= b && b <= 0x46 {
            Some((b - 0x41 + 10) as u32)
        } else if 0x61 <= b && b <= 0x66 {
            Some((b - 0x61 + 10) as u32)
        } else {
            None
        };
        proof {
            assert(d.take(i - start + 1).drop_last() =~= d.take(i - start));
        }
        match digit {
            None => {
                return None;
            },
            Some(x) => {
                if v > (u32::MAX - x) / 16 {
                    proof {
                        lemma_hex_value_prefix(d, i - start + 1);
                    }
                    return None;
                }
                v = v * 16 + x;
            },
        }
        i += 1;
    }
    proof {
        assert(d.take(i - start) =~= d);
    }
    Some(v)
}

/// Reads the code points that a text names.
pub fn read_code_points(s: &[u8]) -> (out: Vec<u32>)
    ensures
        out@ == code_points(s@),
        forall|i: int| 0 <= i < out.len() ==> #[trigger] out[i] < 0x10_0000,
{
    let found = scan(s, false, 4, 5);
    let mut out: Vec<u32> = Vec::new();
    let mut i: usize = 0;
    while i < found.len()
        invariant
            i <= found.len(),
            slices(s@, found@) == tokens(s@, false, 4, 5),
            forall|k: int|
                0 <= k < found.len() ==> {
                    let r = #[trigger] found[k];
                    &&& r.0 <= r.1 <= s.len()
                    &&& 4 <= r.1 - r.0 <= 5
                    &&& forall|j: int| r.0 <= j < r.1 ==> accepts(false, #[trigger] s@[j])
                },
            out@ =~= code_points(s@).take(i as int),
            forall|k: int| 0 <= k < out.len() ==> #[trigger] out[k] < 0x10_0000,
        decreases found.len() - i,
    {
        let r = found[i];
        let v = token_value(s, r.0, r.1);
        proof {
            reveal_with_fuel(pow16, 6);
            lemma_pow16_increases((r.1 - r.0) as nat, 5);
        }
        out.push(v);
        i += 1;
    }
    out
}

/// Finds the groups of weights that a text holds.
pub fn find_groups(s: &[u8]) -> (out: Vec<(usize, usize)>)
    ensures
        slices(s@, out@) == groups(s@),
        forall|i: int|
            0 <= i < out.len() ==> (#[trigger] out[i]).0 + 15 == out[i].1 && out[i].1 <= s.len(),
{
    scan(s, true, 15, 15)
}

/// Reads the levels that a group of weights holds.
pub fn read_levels(s: &[u8]) -> (out: Vec<u16>)
    ensures
        out@ == levels(s@),
{
    let found = scan(s, false, 4, 4);
    let mut out: Vec<u16> = Vec::new();
    let mut i: usize = 0;
    while i < found.len()
        invariant
            i <= found.len(),
            slices(s@, found@) == tokens(s@, false, 4, 4),
            forall|k: int|
                0 <= k < found.len() ==> {
                    let r = #[trigger] found[k];
                    &&& r.0 <= r.1 <= s.len()
                    &&& 4 <= r.1 - r.0 <= 4
                    &&& forall|j: int| r.0 <= j < r.1 ==> accepts(false, #[trigger] s@[j])
                },
            out@ =~= levels(s@).take(i as int),
        decreases found.len() - i,
    {
        let r = found[i];
        let v = token_value(s, r.0, r.1);
        proof {
            reveal_with_fuel(pow16, 5);
        }
        out.push(v as u16);
        i += 1;
    }
    out
}

/// Cuts a part out of a text.
pub(crate) fn part(s: &[u8], range: (usize, usize)) -> (out: &[u8])
    requires
        range.0 <= range.1 <= s.len(),
    ensures
        out@ == s@.subrange(range.0 as int, range.1 as int),
{
    slice_subrange(s, range.0, range.1)
}

} // verus!
