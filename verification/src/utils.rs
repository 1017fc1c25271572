//! Shared helpers: window overlap, chunk-directory names, the clock, and
//! intersection of many posting lists.

use crate::error::MonolithErr;
use crate::ops::{order_intersect_ids, strictly_sorted_ids};
use crate::time_series::TimeSeriesId;
use crate::Timestamp;
use vstd::prelude::*;

verus! {

/// Whether the closed intervals `[start_time_1, end_time_1]` and
/// `[start_time_2, end_time_2]` share at least one timestamp.
pub fn is_duration_overlap(
    start_time_1: Timestamp,
    end_time_1: Timestamp,
    start_time_2: Timestamp,
    end_time_2: Timestamp,
) -> (r: bool)
    ensures
        r == !(start_time_1 > end_time_2 || end_time_1 < start_time_2),
{
    !(start_time_1 > end_time_2 || end_time_1 < start_time_2)
}

/// The wall clock as milliseconds since the Unix epoch; 0 when the clock
/// sits before the epoch.
///
/// Relies on std::time::SystemTime::now; the result depends on the clock, so
/// nothing is promised of it.
#[verifier::external_body]
pub fn get_current_timestamp() -> Timestamp {
    let now = std::time::SystemTime::now();
    match now.duration_since(std::time::UNIX_EPOCH) {
        Ok(since_the_epoch) => since_the_epoch.as_millis() as Timestamp,
        Err(_) => 0,
    }
}

/// The hex character for nibble `d`.
pub open spec fn hex_digit(d: int) -> char {
    if d == 0 {
        '0'
    } else if d == 1 {
        '1'
    } else if d == 2 {
        '2'
    } else if d == 3 {
        '3'
    } else if d == 4 {
        '4'
    } else if d == 5 {
        '5'
    } else if d == 6 {
        '6'
    } else if d == 7 {
        '7'
    } else if d == 8 {
        '8'
    } else if d == 9 {
        '9'
    } else if d == 10 {
        'a'
    } else if d == 11 {
        'b'
    } else if d == 12 {
        'c'
    } else if d == 13 {
        'd'
    } else if d == 14 {
        'e'
    } else {
        'f'
    }
}

/// The value of a hex character, or -1 when it is none.
pub open spec fn hex_val(c: char) -> int {
    if c == '0' {
        0
    } else if c == '1' {
        1
    } else if c == '2' {
        2
    } else if c == '3' {
        3
    } else if c == '4' {
        4
    } else if c == '5' {
        5
    } else if c == '6' {
        6
    } else if c == '7' {
        7
    } else if c == '8' {
        8
    } else if c == '9' {
        9
    } else if c == 'a' || c == 'A' {
        10
    } else if c == 'b' || c == 'B' {
        11
    } else if c == 'c' || c == 'C' {
        12
    } else if c == 'd' || c == 'D' {
        13
    } else if c == 'e' || c == 'E' {
        14
    } else if c == 'f' || c == 'F' {
        15
    } else {
        -1
    }
}

/// Every character of `s` is a hex digit.
pub open spec fn all_hex(s: Seq<char>) -> bool {
    forall|i: int| 0 <= i < s.len() ==> hex_val(#[trigger] s[i]) >= 0
}

/// The integer a hex string denotes, most significant digit first.
pub open spec fn hex_value(s: Seq<char>) -> int
    decreases s.len(),
{
    if s.len() == 0 {
        0
    } else {
        hex_value(s.drop_last()) * 16 + hex_val(s.last())
    }
}

/// 16 to the power `k`.
pub open spec fn pow16(k: nat) -> int
    decreases k,
{
    if k == 0 {
        1
    } else {
        16 * pow16((k - 1) as nat)
    }
}

/// The start and end time of a chunk combined into one number: the name of
/// the chunk's directory denotes `start * 2^64 + end`.
pub open spec fn combine_times(start: Timestamp, end: Timestamp) -> int {
    start * 0x10000000000000000 + end
}

/// The 32-character zero-padded lowercase hex form of `v`.
pub open spec fn hex32(v: int) -> Seq<char> {
    Seq::new(32, |i: int| hex_digit((v / pow16((31 - i) as nat)) % 16))
}

/// The hex string for nibble `d`, one character long.
fn hex_digit_str(d: u8) -> (r: &'static str)
    requires
        d < 16,
    ensures
        r@.len() == 1,
        r@[0] == hex_digit(d as int),
{
    proof {
        reveal_strlit("0");
        reveal_strlit("1");
        reveal_strlit("2");
        reveal_strlit("3");
        reveal_strlit("4");
        reveal_strlit("5");
        reveal_strlit("6");
        reveal_strlit("7");
        reveal_strlit("8");
        reveal_strlit("9");
        reveal_strlit("a");
        reveal_strlit("b");
        reveal_strlit("c");
        reveal_strlit("d");
        reveal_strlit("e");
        reveal_strlit("f");
    }
    match d {
        0 => "0",
        1 => "1",
        2 => "2",
        3 => "3",
        4 => "4",
        5 => "5",
        6 => "6",
        7 => "7",
        8 => "8",
        9 => "9",
        10 => "a",
        11 => "b",
        12 => "c",
        13 => "d",
        14 => "e",
        _ => "f",
    }
}

/// Name of the directory that holds a chunk with window `[start_time,
/// end_time)`: the 32-character zero-padded lowercase hex of
/// `start_time * 2^64 + end_time`, decodable without loss.
pub fn encode_chunk_dir(start_time: Timestamp, end_time: Timestamp) -> (r: String)
    ensures
        r@ == hex32(combine_times(start_time, end_time)),
{
    let v: u128 = (start_time as u128) * 0x10000000000000000u128 + (end_time as u128);
    proof {
        assert(v == combine_times(start_time, end_time)) by {
            assert((start_time as int) * 0x10000000000000000 + (end_time as int)
                < 0x100000000000000000000000000000000) by (nonlinear_arith);
        }
    }
    // Collect the nibbles, least significant first.
    let mut digits: Vec<u8> = Vec::new();
    let mut cur: u128 = v;
    let mut k: usize = 0;
    while k < 32
        invariant
            k <= 32,
            digits@.len() == k,
            cur == (v as int) / pow16(k as nat),
            forall|t: int| 0 <= t < k ==> digits@[t] == ((v as int) / pow16(t as nat)) % 16,
        decreases 32 - k,
    {
        let d: u8 = (cur % 16) as u8;
        digits.push(d);
        proof {
            lemma_pow16_pos(k as nat);
            vstd::arithmetic::div_mod::lemma_div_denominator(v as int, pow16(k as nat), 16);
            assert(pow16(k as nat) * 16 == pow16((k + 1) as nat));
        }
        cur = cur / 16;
        k = k + 1;
    }
    // Emit them most significant first.
    let mut s = String::new();
    let mut j: usize = 0;
    while j < 32
        invariant
            j <= 32,
            digits@.len() == 32,
            forall|t: int| 0 <= t < 32 ==> digits@[t] == ((v as int) / pow16(t as nat)) % 16,
            forall|t: int| 0 <= t < 32 ==> 0 <= #[trigger] digits@[t] < 16,
            s@.len() == j,
            forall|t: int| 0 <= t < j ==> s@[t] == hex_digit((v as int / pow16((31 - t) as nat)) % 16),
        decreases 32 - j,
    {
        let piece = hex_digit_str(digits[31 - j]);
        s.append(piece);
        j = j + 1;
    }
    proof {
        assert(s@ =~= hex32(v as int));
    }
    s
}

proof fn lemma_pow16_pos(k: nat)
    ensures
        pow16(k) >= 1,
    decreases k,
{
    if k > 0 {
        lemma_pow16_pos((k - 1) as nat);
    }
}

/// A prefix of a hex string denotes at most the whole string's value, and
/// never a negative number.
proof fn lemma_hex_prefix(s: Seq<char>, i: int)
    requires
        all_hex(s),
        0 <= i <= s.len(),
    ensures
        0 <= hex_value(s.take(i)),
        hex_value(s.take(i)) <= hex_value(s),
    decreases s.len() - i,
{
    if i == s.len() {
        assert(s.take(i) =~= s);
        lemma_hex_nonneg(s);
    } else {
        lemma_hex_prefix(s, i + 1);
        assert(s.take(i + 1).drop_last() =~= s.take(i));
        assert(s.take(i + 1).last() == s[i]);
        lemma_hex_nonneg(s.take(i));
        assert(hex_value(s.take(i)) * 16 >= hex_value(s.take(i))) by (nonlinear_arith)
            requires
                hex_value(s.take(i)) >= 0,
        ;
    }
}

proof fn lemma_hex_nonneg(s: Seq<char>)
    requires
        all_hex(s),
    ensures
        hex_value(s) >= 0,
    decreases s.len(),
{
    if s.len() > 0 {
        assert(all_hex(s.drop_last())) by {
            assert(forall|i: int|
                0 <= i < s.len() - 1 ==> s.drop_last()[i] == #[trigger] s[i]);
        }
        lemma_hex_nonneg(s.drop_last());
        assert(hex_value(s.drop_last()) * 16 >= 0) by (nonlinear_arith)
            requires
                hex_value(s.drop_last()) >= 0,
        ;
    }
}

/// The value of a hex character, or `None` when the character is no hex
/// digit.
fn hex_val_exec(c: char) -> (r: Option<u8>)
    ensures
        r matches Some(d) ==> d == hex_val(c) && d < 16,
        r is None ==> hex_val(c) == -1,
{
    match c {
        '0' => Some(0),
        '1' => Some(1),
        '2' => Some(2),
        '3' => Some(3),
        '4' => Some(4),
        '5' => Some(5),
        '6' => Some(6),
        '7' => Some(7),
        '8' => Some(8),
        '9' => Some(9),
        'a' => Some(10),
        'b' => Some(11),
        'c' => Some(12),
        'd' => Some(13),
        'e' => Some(14),
        'f' => Some(15),
        'A' => Some(10),
        'B' => Some(11),
        'C' => Some(12),
        'D' => Some(13),
        'E' => Some(14),
        'F' => Some(15),
        _ => None,
    }
}

/// Decode a chunk directory name back into its `(start_time, end_time)`
/// window. Returns `ParseErr` exactly when the name is empty, holds a
/// non-hex character, or denotes a number too large for 128 bits.
pub fn decode_chunk_dir(dir_name: String) -> (r: Result<(Timestamp, Timestamp), MonolithErr>)
    ensures
        r matches Ok(w) ==> {
            &&& dir_name@.len() > 0
            &&& all_hex(dir_name@)
            &&& hex_value(dir_name@) < 0x100000000000000000000000000000000
            &&& w.0 == hex_value(dir_name@) / 0x10000000000000000
            &&& w.1 == hex_value(dir_name@) % 0x10000000000000000
        },
        r is Err ==> (dir_name@.len() == 0 || !all_hex(dir_name@) || hex_value(dir_name@)
            >= 0x100000000000000000000000000000000),
{
    let s = dir_name.as_str();
    let len = s.unicode_len();
    if len == 0 {
        return Err(MonolithErr::ParseErr);
    }
    let mut acc: u128 = 0;
    let mut i: usize = 0;
    while i < len
        invariant
            i <= len,
            s@ == dir_name@,
            len == s@.len(),
            all_hex(s@.take(i as int)),
            acc == hex_value(s@.take(i as int)),
        decreases len - i,
    {
        let c = s.get_char(i);
        let d = match hex_val_exec(c) {
            Some(d) => d,
            None => {
                proof {
                    assert(hex_val(s@[i as int]) == -1);
                    assert(!all_hex(s@));
                }
                return Err(MonolithErr::ParseErr);
            },
        };
        if acc > (u128::MAX - (d as u128)) / 16 {
            proof {
                assert(all_hex(s@.take(i + 1))) by {
                    assert(forall|t: int|
                        0 <= t < i ==> s@.take(i + 1)[t] == #[trigger] s@.take(i as int)[t]);
                    assert(s@.take(i + 1)[i as int] == s@[i as int]);
                }
                assert(s@.take(i + 1).drop_last() =~= s@.take(i as int));
                assert(s@.take(i + 1).last() == s@[i as int]);
                assert(hex_value(s@.take(i + 1)) == acc * 16 + d);
                assert(acc * 16 + d > u128::MAX) by (nonlinear_arith)
                    requires
                        acc > (u128::MAX - (d as u128)) / 16,
                        d < 16,
                ;
                if all_hex(s@) {
                    lemma_hex_prefix(s@, i + 1);
                    assert(hex_value(s@) >= hex_value(s@.take(i + 1)));
                    assert(hex_value(s@) >= 0x100000000000000000000000000000000);
                }
            }
            return Err(MonolithErr::ParseErr);
        }
        proof {
            assert(acc * 16 + d <= u128::MAX) by (nonlinear_arith)
                requires
                    acc <= (u128::MAX - (d as u128)) / 16,
                    d < 16,
            ;
            assert(s@.take(i + 1).drop_last() =~= s@.take(i as int));
            assert(s@.take(i + 1).last() == s@[i as int]);
            assert(all_hex(s@.take(i + 1))) by {
                assert(forall|t: int|
                    0 <= t < i ==> s@.take(i + 1)[t] == #[trigger] s@.take(i as int)[t]);
                assert(s@.take(i + 1)[i as int] == s@[i as int]);
            }
        }
        acc = acc * 16 + (d as u128);
        i = i + 1;
    }
    proof {
        assert(s@.take(len as int) =~= s@);
    }
    let end_time: u64 = (acc % 0x10000000000000000u128) as u64;
    let start_time: u64 = (acc / 0x10000000000000000u128) as u64;
    Ok((start_time, end_time))
}

/// Turn UTF-8 bytes back into a string.
///
/// Relies on String::from_utf8: succeeds exactly on valid UTF-8, yielding
/// the decoded characters.
#[verifier::external_body]
pub fn utf8_to_string(bytes: Vec<u8>) -> (r: Option<String>)
    ensures
        r matches Some(s) ==> vstd::utf8::valid_utf8(bytes@) && s@ == vstd::utf8::decode_utf8(
            bytes@,
        ),
        r is None ==> !vstd::utf8::valid_utf8(bytes@),
{
    match String::from_utf8(bytes) {
        Ok(s) => Some(s),
        Err(_) => None,
    }
}

/// The decimal digit character for `d`.
pub open spec fn dec_digit(d: int) -> char {
    hex_digit(if 0 <= d < 10 {
        d
    } else {
        0
    })
}

/// The decimal representation of `n`, most significant digit first, with no
/// leading zeros (except for zero itself).
pub open spec fn dec_rep(n: int) -> Seq<char>
    decreases n,
{
    if n < 0 {
        Seq::<char>::empty()
    } else if n < 10 {
        seq![dec_digit(n)]
    } else {
        dec_rep(n / 10).push(dec_digit(n % 10))
    }
}

/// The value of a decimal digit character, or -1 when it is none.
pub open spec fn dec_val(c: char) -> int {
    if hex_val(c) < 10 {
        hex_val(c)
    } else {
        -1
    }
}

/// Every character of `s` is a decimal digit.
pub open spec fn all_dec(s: Seq<char>) -> bool {
    forall|i: int| 0 <= i < s.len() ==> dec_val(#[trigger] s[i]) >= 0
}

/// The integer a decimal string denotes, most significant digit first.
pub open spec fn dec_value(s: Seq<char>) -> int
    decreases s.len(),
{
    if s.len() == 0 {
        0
    } else {
        dec_value(s.drop_last()) * 10 + dec_val(s.last())
    }
}

/// The characters of collected digits: least significant first in the
/// input, most significant first in the result.
pub open spec fn digit_chars(ds: Seq<u8>) -> Seq<char>
    decreases ds.len(),
{
    if ds.len() == 0 {
        Seq::<char>::empty()
    } else {
        seq![dec_digit(ds.last() as int)] + digit_chars(ds.drop_last())
    }
}

proof fn lemma_digit_chars(ds: Seq<u8>)
    ensures
        digit_chars(ds).len() == ds.len(),
        forall|i: int|
            0 <= i < ds.len() ==> digit_chars(ds)[i] == dec_digit(ds[ds.len() - 1 - i] as int),
    decreases ds.len(),
{
    if ds.len() > 0 {
        lemma_digit_chars(ds.drop_last());
        assert forall|i: int| 0 <= i < ds.len() implies digit_chars(ds)[i] == dec_digit(
            ds[ds.len() - 1 - i] as int,
        ) by {
            if i > 0 {
                assert(digit_chars(ds)[i] == digit_chars(ds.drop_last())[i - 1]);
                assert(ds.drop_last()[ds.len() - 1 - i] == ds[ds.len() - 1 - i]);
            }
        }
    }
}

/// Format `n` in decimal.
pub fn u64_to_dec_string(n: u64) -> (r: String)
    ensures
        r@ == dec_rep(n as int),
{
    // Collect digits, least significant first.
    let mut digits: Vec<u8> = Vec::new();
    let mut cur: u64 = n;
    loop
        invariant_except_break
            dec_rep(n as int) == dec_rep(cur as int) + digit_chars(digits@),
        invariant
            forall|t: int| 0 <= t < digits@.len() ==> digits@[t] < 10,
        ensures
            dec_rep(n as int) == digit_chars(digits@),
            digits@.len() > 0,
            forall|t: int| 0 <= t < digits@.len() ==> digits@[t] < 10,
        decreases cur,
    {
        let ghost pre = digits@;
        let d: u8 = (cur % 10) as u8;
        digits.push(d);
        proof {
            assert(digits@.drop_last() =~= pre);
            assert(digit_chars(digits@) == seq![dec_digit(d as int)] + digit_chars(pre));
            if cur >= 10 {
                assert(dec_rep(cur as int) == dec_rep(cur as int / 10).push(
                    dec_digit(cur as int % 10),
                ));
                assert(dec_rep(cur as int / 10).push(dec_digit(cur as int % 10)) + digit_chars(pre)
                    =~= dec_rep(cur as int / 10) + (seq![dec_digit(d as int)] + digit_chars(pre)));
            } else {
                assert(dec_rep(cur as int) == seq![dec_digit(cur as int)]);
                assert(seq![dec_digit(cur as int)] + digit_chars(pre) =~= seq![
                    dec_digit(d as int)] + digit_chars(pre));
            }
        }
        if cur < 10 {
            break;
        }
        cur = cur / 10;
    }
    proof {
        lemma_digit_chars(digits@);
    }
    // Emit them, most significant first.
    let mut s = String::new();
    let k = digits.len();
    let mut j: usize = 0;
    while j < k
        invariant
            j <= k,
            k == digits@.len(),
            forall|t: int| 0 <= t < k ==> digits@[t] < 10,
            s@.len() == j,
            forall|t: int| 0 <= t < j ==> s@[t] == dec_digit(digits@[k - 1 - t] as int),
        decreases k - j,
    {
        let piece = hex_digit_str(digits[k - 1 - j]);
        s.append(piece);
        j = j + 1;
    }
    proof {
        lemma_digit_chars(digits@);
        assert(s@ =~= digit_chars(digits@));
    }
    s
}

/// Parse a decimal string into a 64-bit number. Fails with `ParseErr`
/// exactly when the string is empty, holds a non-digit, or denotes a number
/// too large for 64 bits.
pub fn parse_u64_dec(s: &str) -> (r: Result<u64, MonolithErr>)
    ensures
        r matches Ok(n) ==> {
            &&& s@.len() > 0
            &&& all_dec(s@)
            &&& n == dec_value(s@)
            &&& dec_value(s@) < 0x10000000000000000
        },
        r is Err ==> (s@.len() == 0 || !all_dec(s@) || dec_value(s@) >= 0x10000000000000000),
        r matches Err(e) ==> e is ParseErr,
{
    let len = s.unicode_len();
    if len == 0 {
        return Err(MonolithErr::ParseErr);
    }
    let mut acc: u64 = 0;
    let mut i: usize = 0;
    while i < len
        invariant
            i <= len,
            len == s@.len(),
            all_dec(s@.take(i as int)),
            acc == dec_value(s@.take(i as int)),
        decreases len - i,
    {
        let c = s.get_char(i);
        let d = match hex_val_exec(c) {
            Some(d) if d < 10 => d,
            _ => {
                proof {
                    assert(dec_val(s@[i as int]) == -1);
                    assert(!all_dec(s@));
                }
                return Err(MonolithErr::ParseErr);
            },
        };
        proof {
            assert(s@.take(i + 1).drop_last() =~= s@.take(i as int));
            assert(s@.take(i + 1).last() == s@[i as int]);
            assert(all_dec(s@.take(i + 1))) by {
                assert(forall|t: int|
                    0 <= t < i ==> s@.take(i + 1)[t] == #[trigger] s@.take(i as int)[t]);
                assert(s@.take(i + 1)[i as int] == s@[i as int]);
            }
        }
        if acc > (u64::MAX - (d as u64)) / 10 {
            proof {
                assert(dec_value(s@.take(i + 1)) == acc * 10 + d);
                assert(acc * 10 + d > u64::MAX) by (nonlinear_arith)
                    requires
                        acc > (u64::MAX - (d as u64)) / 10,
                        d < 10,
                ;
                if all_dec(s@) {
                    lemma_dec_prefix(s@, i + 1);
                    assert(dec_value(s@) >= dec_value(s@.take(i + 1)));
                }
            }
            return Err(MonolithErr::ParseErr);
        }
        proof {
            assert(acc * 10 + d <= u64::MAX) by (nonlinear_arith)
                requires
                    acc <= (u64::MAX - (d as u64)) / 10,
                    d < 10,
            ;
        }
        acc = acc * 10 + (d as u64);
        i = i + 1;
    }
    proof {
        assert(s@.take(len as int) =~= s@);
    }
    Ok(acc)
}

/// A prefix of a decimal string denotes at most the whole string's value.
proof fn lemma_dec_prefix(s: Seq<char>, i: int)
    requires
        all_dec(s),
        0 <= i <= s.len(),
    ensures
        0 <= dec_value(s.take(i)),
        dec_value(s.take(i)) <= dec_value(s),
    decreases s.len() - i,
{
    if i == s.len() {
        assert(s.take(i) =~= s);
        lemma_dec_nonneg(s);
    } else {
        lemma_dec_prefix(s, i + 1);
        assert(s.take(i + 1).drop_last() =~= s.take(i));
        assert(s.take(i + 1).last() == s[i]);
        lemma_dec_nonneg(s.take(i));
        assert(dec_value(s.take(i)) * 10 >= dec_value(s.take(i))) by (nonlinear_arith)
            requires
                dec_value(s.take(i)) >= 0,
        ;
    }
}

proof fn lemma_dec_nonneg(s: Seq<char>)
    requires
        all_dec(s),
    ensures
        dec_value(s) >= 0,
    decreases s.len(),
{
    if s.len() > 0 {
        assert(all_dec(s.drop_last())) by {
            assert(forall|i: int| 0 <= i < s.len() - 1 ==> s.drop_last()[i] == #[trigger] s[i]);
        }
        lemma_dec_nonneg(s.drop_last());
        assert(dec_value(s.drop_last()) * 10 >= 0) by (nonlinear_arith)
            requires
                dec_value(s.drop_last()) >= 0,
        ;
    }
}

/// The views of a list of id lists.
pub open spec fn id_list_views(ts: Seq<Vec<TimeSeriesId>>) -> Seq<Seq<u64>> {
    ts.map(|k: int, v: Vec<TimeSeriesId>| v@)
}

/// `x` occurs in every one of the lists.
pub open spec fn in_all_lists(ts: Seq<Vec<TimeSeriesId>>, x: u64) -> bool {
    forall|k: int| 0 <= k < ts.len() ==> (#[trigger] ts[k])@.contains(x)
}

/// Intersect a family of strictly ascending id lists. An empty family yields
/// an empty list; otherwise the result holds, in strictly ascending order,
/// exactly the ids that occur in every list. Never fails.
pub fn intersect_time_series_id_vec(mut ts: Vec<Vec<TimeSeriesId>>) -> (r: Result<
    Vec<TimeSeriesId>,
    MonolithErr,
>)
    requires
        forall|k: int| 0 <= k < ts@.len() ==> strictly_sorted_ids((#[trigger] ts@[k])@),
    ensures
        r matches Ok(v) && strictly_sorted_ids(v@),
        r matches Ok(v) ==> {
            &&& ts@.len() == 0 ==> v@.len() == 0
            &&& ts@.len() > 0 ==> (forall|x: u64| v@.contains(x) <==> in_all_lists(ts@, x))
        },
    decreases ts@.len(),
{
    let ghost orig = ts@;
    let n = ts.len();
    if n == 0 {
        return Ok(Vec::new());
    }
    if n == 1 {
        let only = ts.pop().unwrap();
        proof {
            assert(only == orig[0]);
            assert forall|x: u64| only@.contains(x) <==> in_all_lists(orig, x) by {
                if only@.contains(x) {
                    assert forall|k: int| 0 <= k < orig.len() implies (#[trigger] orig[k])@.contains(
                        x,
                    ) by {
                        assert(k == 0);
                    }
                }
            }
        }
        return Ok(only);
    }
    if n == 2 {
        let second = ts.pop().unwrap();
        let first = ts.pop().unwrap();
        let r = order_intersect_ids(&first, &second);
        proof {
            assert(first == orig[0]);
            assert(second == orig[1]);
            assert forall|x: u64| r@.contains(x) <==> in_all_lists(orig, x) by {
                assert(orig[0] == first && orig[1] == second);
                if in_all_lists(orig, x) {
                    assert(orig[0]@.contains(x));
                    assert(orig[1]@.contains(x));
                }
            }
        }
        return Ok(r);
    }
    if n % 2 != 0 {
        let last = ts.pop().unwrap();
        proof {
            assert(last == orig.last());
            assert(ts@ =~= orig.drop_last());
        }
        let rest = match intersect_time_series_id_vec(ts) {
            Ok(v) => v,
            Err(e) => {
                return Err(e);
            },
        };
        let r = order_intersect_ids(&rest, &last);
        proof {
            assert forall|x: u64| r@.contains(x) <==> in_all_lists(orig, x) by {
                if in_all_lists(orig, x) {
                    assert forall|k: int| 0 <= k < orig.len() - 1 implies (#[trigger] orig.drop_last(
                    )[k])@.contains(x) by {
                        assert(orig.drop_last()[k] == orig[k]);
                        assert(orig[k]@.contains(x));
                    }
                    assert(orig.last()@.contains(x));
                }
                if r@.contains(x) {
                    assert forall|k: int| 0 <= k < orig.len() implies (#[trigger] orig[k])@.contains(
                        x,
                    ) by {
                        if k < orig.len() - 1 {
                            assert(orig.drop_last()[k] == orig[k]);
                        } else {
                            assert(orig[k] == orig.last());
                        }
                    }
                }
            }
        }
        return Ok(r);
    }
    let half = n / 2;
    let right = ts.split_off(half);
    proof {
        assert(ts@ =~= orig.take(half as int));
        assert(right@ =~= orig.skip(half as int));
    }
    let left_r = match intersect_time_series_id_vec(ts) {
        Ok(v) => v,
        Err(e) => {
            return Err(e);
        },
    };
    let right_r = match intersect_time_series_id_vec(right) {
        Ok(v) => v,
        Err(e) => {
            return Err(e);
        },
    };
    let r = order_intersect_ids(&left_r, &right_r);
    proof {
        assert forall|x: u64| r@.contains(x) <==> in_all_lists(orig, x) by {
            if in_all_lists(orig, x) {
                assert forall|k: int| 0 <= k < half implies (#[trigger] orig.take(
                    half as int,
                )[k])@.contains(x) by {
                    assert(orig.take(half as int)[k] == orig[k]);
                }
                assert forall|k: int| 0 <= k < orig.len() - half implies (#[trigger] orig.skip(
                    half as int,
                )[k])@.contains(x) by {
                    assert(orig.skip(half as int)[k] == orig[k + half]);
                }
            }
            if r@.contains(x) {
                assert forall|k: int| 0 <= k < orig.len() implies (#[trigger] orig[k])@.contains(
                    x,
                ) by {
                    if k < half {
                        assert(orig.take(half as int)[k] == orig[k]);
                        assert(orig.take(half as int)[k]@.contains(x));
                    } else {
                        assert(orig.skip(half as int)[k - half] == orig[k]);
                        assert(orig.skip(half as int)[k - half]@.contains(x));
                    }
                }
            }
        }
    }
    Ok(r)
}

} // verus!
