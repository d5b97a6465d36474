//! The wire codec for the bus payloads.
//!
//! Every payload on the bus is a JSON document over UTF-8 bytes: a submitted
//! order on an enrichment subject, a normalized order on a persist subject, a
//! query on a query subject, and a reply — a record array or an explicit
//! error sentinel — on a reply subject. The encoders below produce exactly
//! the canonical document of a value, the parsers accept a strict canonical
//! document (with the standard string escapes), and the round-trip lemmas
//! state that parsing an encoded value gives that value back.

use vstd::prelude::*;

use vstd::string::StringSliceAdditionalSpecFns;
use vstd::utf8::decode_utf8;
use vstd::utf8::encode_utf8;
use vstd::utf8::valid_utf8;

use crate::types::Data;
use crate::types::OrderDetailPayload;
use crate::types::OrderDetailPayloadModel;
use crate::types::OrderPayload;
use crate::types::OrderPayloadModel;
use crate::types::OrderQuery;
use crate::types::OrderQueryModel;
use crate::types::OrderRecord;
use crate::types::OrderRecordModel;

verus! {

// ---------------------------------------------------------------------------
// String escaping
// ---------------------------------------------------------------------------
/// Lower-case hex digit of a value below 16, as an ASCII byte.
pub open spec fn spec_hex_digit(v: u8) -> u8
    recommends
        v < 16,
{
    if v < 10 {
        (48 + v) as u8
    } else {
        (87 + v) as u8
    }
}

/// The JSON escape of one byte of string content: quote and backslash get a
/// backslash escape, control bytes a `\u00XX` escape, and every other byte
/// stands for itself.
pub open spec fn spec_esc_byte(b: u8) -> Seq<u8> {
    if b == 34 {
        seq![92u8, 34u8]
    } else if b == 92 {
        seq![92u8, 92u8]
    } else if b < 32 {
        seq![92u8, 117u8, 48u8, 48u8, spec_hex_digit(b / 16), spec_hex_digit(b % 16)]
    } else {
        seq![b]
    }
}

/// The JSON escape of a whole run of string content bytes.
pub open spec fn spec_esc(s: Seq<u8>) -> Seq<u8>
    decreases s.len(),
{
    if s.len() == 0 {
        Seq::empty()
    } else {
        spec_esc_byte(s[0]) + spec_esc(s.skip(1))
    }
}

fn hex_digit(v: u8) -> (r: u8)
    requires
        v < 16,
    ensures
        r == spec_hex_digit(v),
{
    if v < 10 {
        48 + v
    } else {
        87 + v
    }
}

/// Appends the escaped form of `s` to `out`.
fn escape_into(out: &mut Vec<u8>, s: &[u8])
    ensures
        final(out)@ == old(out)@ + spec_esc(s@),
{
    let mut i: usize = 0;
    while i < s.len()
        invariant
            i <= s@.len(),
            out@ == old(out)@ + spec_esc(s@.take(i as int)),
        decreases s@.len() - i,
    {
        let b = s[i];
        if b == 34 {
            out.push(92);
            out.push(34);
        } else if b == 92 {
            out.push(92);
            out.push(92);
        } else if b < 32 {
            out.push(92);
            out.push(117);
            out.push(48);
            out.push(48);
            out.push(hex_digit(b / 16));
            out.push(hex_digit(b % 16));
        } else {
            out.push(b);
        }
        proof {
            lemma_esc_take_step(s@, i as int);
        }
        i += 1;
    }
    proof {
        assert(s@.take(s@.len() as int) =~= s@);
    }
}

/// Escaping one more byte appends that byte's escape.
proof fn lemma_esc_take_step(s: Seq<u8>, i: int)
    requires
        0 <= i < s.len(),
    ensures
        spec_esc(s.take(i + 1)) == spec_esc(s.take(i)) + spec_esc_byte(s[i]),
    decreases i,
{
    if i == 0 {
        assert(s.take(1) =~= seq![s[0]]);
        assert(s.take(1).skip(1) =~= Seq::<u8>::empty());
        assert(s.take(0) =~= Seq::<u8>::empty());
        assert(spec_esc(Seq::<u8>::empty()) == Seq::<u8>::empty());
        assert(spec_esc(s.take(1)) == spec_esc_byte(s.take(1)[0]) + spec_esc(s.take(1).skip(1)));
        assert(s.take(1)[0] == s[0]);
        assert(spec_esc(s.take(1)) =~= spec_esc_byte(s[0]));
    } else {
        lemma_esc_take_step(s.skip(1), i - 1);
        assert(s.take(i + 1)[0] == s[0]);
        assert(s.take(i + 1).skip(1) =~= s.skip(1).take(i));
        assert(s.take(i)[0] == s[0]);
        assert(s.take(i).skip(1) =~= s.skip(1).take(i - 1));
        assert(spec_esc(s.take(i + 1)) == spec_esc_byte(s[0]) + spec_esc(s.skip(1).take(i)));
        assert(spec_esc(s.take(i)) == spec_esc_byte(s[0]) + spec_esc(s.skip(1).take(i - 1)));
        assert(s.skip(1)[i - 1] == s[i]);
        assert(spec_esc(s.take(i + 1)) =~= spec_esc(s.take(i)) + spec_esc_byte(s[i]));
    }
}

// ---------------------------------------------------------------------------
// String content scanning
// ---------------------------------------------------------------------------
/// The content byte denoted by a single-character escape, if that escape
/// exists.
pub open spec fn spec_unescape_char(e: u8) -> Option<u8> {
    if e == 34 {
        Some(34u8)
    } else if e == 92 {
        Some(92u8)
    } else if e == 47 {
        Some(47u8)
    } else if e == 98 {
        Some(8u8)
    } else if e == 102 {
        Some(12u8)
    } else if e == 110 {
        Some(10u8)
    } else if e == 114 {
        Some(13u8)
    } else if e == 116 {
        Some(9u8)
    } else {
        None
    }
}

/// Value of an ASCII hex digit byte, if it is one.
pub open spec fn spec_hex_val(b: u8) -> Option<u8> {
    if 48 <= b <= 57 {
        Some((b - 48) as u8)
    } else if 97 <= b <= 102 {
        Some((b - 87) as u8)
    } else if 65 <= b <= 70 {
        Some((b - 55) as u8)
    } else {
        None
    }
}

/// Scans JSON string content from position `i` up to an unescaped closing
/// quote: the unescaped content bytes and the position just past the quote.
/// A `\u` escape is accepted for ASCII code points only.
pub open spec fn spec_scan_string(b: Seq<u8>, i: int) -> Option<(Seq<u8>, int)>
    decreases b.len() - i when 0 <= i <= b.len()
{
    if i == b.len() {
        None
    } else if b[i] == 34 {
        Some((Seq::empty(), i + 1))
    } else if b[i] == 92 {
        if i + 1 == b.len() {
            None
        } else if b[i + 1] == 117 {
            if i + 6 <= b.len() {
                match (spec_hex_val(b[i + 2]), spec_hex_val(b[i + 3]), spec_hex_val(b[i + 4]),
                spec_hex_val(b[i + 5])) {
                    (Some(h3), Some(h2), Some(h1), Some(h0)) => {
                        let v = h3 * 4096 + h2 * 256 + h1 * 16 + h0;
                        if v < 128 {
                            match spec_scan_string(b, i + 6) {
                                Some((s, j)) => Some((seq![v as u8] + s, j)),
                                None => None,
                            }
                        } else {
                            None
                        }
                    },
                    _ => None,
                }
            } else {
                None
            }
        } else {
            match spec_unescape_char(b[i + 1]) {
                Some(c) => match spec_scan_string(b, i + 2) {
                    Some((s, j)) => Some((seq![c] + s, j)),
                    None => None,
                },
                None => None,
            }
        }
    } else {
        match spec_scan_string(b, i + 1) {
            Some((s, j)) => Some((seq![b[i]] + s, j)),
            None => None,
        }
    }
}

/// A successful scan always consumes at least the closing quote and never
/// runs past the input.
pub proof fn lemma_scan_bounds(b: Seq<u8>, i: int)
    requires
        0 <= i <= b.len(),
    ensures
        spec_scan_string(b, i) matches Some((s, j)) ==> i < j <= b.len(),
    decreases b.len() - i,
{
    if i < b.len() {
        if b[i] == 92 {
            if i + 1 < b.len() && b[i + 1] == 117 && i + 6 <= b.len() {
                lemma_scan_bounds(b, i + 6);
            } else if i + 1 < b.len() {
                lemma_scan_bounds(b, i + 2);
            }
        } else if b[i] != 34 {
            lemma_scan_bounds(b, i + 1);
        }
    }
}

fn hex_val(b: u8) -> (r: Option<u8>)
    ensures
        r == spec_hex_val(b),
{
    if 48 <= b && b <= 57 {
        Some(b - 48)
    } else if 97 <= b && b <= 102 {
        Some(b - 87)
    } else if 65 <= b && b <= 70 {
        Some(b - 55)
    } else {
        None
    }
}

/// Scans JSON string content starting at `i`, returning the unescaped
/// content and the position just past the closing quote.
fn scan_string(b: &[u8], i: usize) -> (r: Option<(Vec<u8>, usize)>)
    requires
        i <= b@.len(),
    ensures
        match r {
            Some((s, j)) => spec_scan_string(b@, i as int) == Some((s@, j as int)) && i < j
                <= b@.len(),
            None => spec_scan_string(b@, i as int) is None,
        },
{
    let mut acc: Vec<u8> = Vec::new();
    let mut cur: usize = i;
    proof {
        lemma_scan_bounds(b@, i as int);
        match spec_scan_string(b@, i as int) {
            Some((s, j)) => {
                assert(Seq::<u8>::empty() + s =~= s);
            },
            None => {},
        }
    }
    loop
        invariant
            i <= cur <= b@.len(),
            match spec_scan_string(b@, cur as int) {
                Some((s, j)) => spec_scan_string(b@, i as int) == Some((acc@ + s, j)) && cur < j
                    <= b@.len(),
                None => spec_scan_string(b@, i as int) is None,
            },
        decreases b@.len() - cur,
    {
        if cur == b.len() {
            return None;
        }
        let c = b[cur];
        if c == 34 {
            proof {
                assert(acc@ + Seq::<u8>::empty() =~= acc@);
            }
            return Some((acc, cur + 1));
        } else if c == 92 {
            if cur + 1 == b.len() {
                return None;
            }
            let e = b[cur + 1];
            if e == 117 {
                if b.len() - cur < 6 {
                    return None;
                }
                let h3 = hex_val(b[cur + 2]);
                let h2 = hex_val(b[cur + 3]);
                let h1 = hex_val(b[cur + 4]);
                let h0 = hex_val(b[cur + 5]);
                match (h3, h2, h1, h0) {
                    (Some(h3), Some(h2), Some(h1), Some(h0)) => {
                        let v: u32 = h3 as u32 * 4096 + h2 as u32 * 256 + h1 as u32 * 16
                            + h0 as u32;
                        if v < 128 {
                            proof {
                                lemma_scan_bounds(b@, cur as int + 6);
                                lemma_scan_prefix(b@, i as int, cur as int, acc@, seq![v as u8], cur + 6);
                            }
                            acc.push(v as u8);
                            cur = cur + 6;
                        } else {
                            return None;
                        }
                    },
                    _ => {
                        return None;
                    },
                }
            } else {
                let u_opt: Option<u8> = match e {
                    34 => Some(34u8),
                    92 => Some(92u8),
                    47 => Some(47u8),
                    98 => Some(8u8),
                    102 => Some(12u8),
                    110 => Some(10u8),
                    114 => Some(13u8),
                    116 => Some(9u8),
                    _ => None,
                };
                match u_opt {
                    Some(u) => {
                        proof {
                            lemma_scan_bounds(b@, cur as int + 2);
                            lemma_scan_prefix(b@, i as int, cur as int, acc@, seq![u], cur + 2);
                        }
                        acc.push(u);
                        cur = cur + 2;
                    },
                    None => {
                        return None;
                    },
                }
            }
        } else {
            proof {
                lemma_scan_bounds(b@, cur as int + 1);
                lemma_scan_prefix(b@, i as int, cur as int, acc@, seq![c], cur + 1);
            }
            acc.push(c);
            cur = cur + 1;
        }
    }
}

/// One scanning step: if scanning from `cur` yields `piece` followed by what
/// scanning from `next` yields, the accumulated prefix moves across.
proof fn lemma_scan_prefix(b: Seq<u8>, i: int, cur: int, acc: Seq<u8>, piece: Seq<u8>, next: int)
    requires
        0 <= i <= cur <= b.len(),
        cur < next <= b.len(),
        match spec_scan_string(b, cur) {
            Some((s, j)) => spec_scan_string(b, i) == Some((acc + s, j)),
            None => spec_scan_string(b, i) is None,
        },
        match spec_scan_string(b, next) {
            Some((s, j)) => spec_scan_string(b, cur) == Some((piece + s, j)),
            None => spec_scan_string(b, cur) is None,
        },
    ensures
        match spec_scan_string(b, next) {
            Some((s, j)) => spec_scan_string(b, i) == Some(((acc + piece) + s, j)),
            None => spec_scan_string(b, i) is None,
        },
{
    match spec_scan_string(b, next) {
        Some((s, j)) => {
            assert(acc + (piece + s) =~= (acc + piece) + s);
        },
        None => {},
    }
}

// ---------------------------------------------------------------------------
// Decimal integers
// ---------------------------------------------------------------------------
pub open spec fn spec_is_digit(b: u8) -> bool {
    48 <= b <= 57
}

/// Decimal digits of a non-negative integer, most significant first.
pub open spec fn spec_dec_nat(n: int) -> Seq<u8>
    decreases n,
    when n >= 0
{
    if n < 10 {
        seq![(48 + n) as u8]
    } else {
        spec_dec_nat(n / 10) + seq![(48 + n % 10) as u8]
    }
}

/// Decimal rendering of an integer, with a leading minus sign if negative.
pub open spec fn spec_dec_int(n: int) -> Seq<u8> {
    if n < 0 {
        seq![45u8] + spec_dec_nat(-n)
    } else {
        spec_dec_nat(n)
    }
}

/// Every byte of a rendered number is a digit, the first is nonzero unless
/// the number is a single digit, and the digits evaluate back to the number.
pub proof fn lemma_dec_nat_digits(n: int)
    requires
        n >= 0,
    ensures
        spec_dec_nat(n).len() >= 1,
        forall|k: int|
            0 <= k < spec_dec_nat(n).len() ==> spec_is_digit(#[trigger] spec_dec_nat(n)[k]),
        spec_dec_nat(n).len() > 1 ==> spec_dec_nat(n)[0] != 48,
        spec_digits_val(spec_dec_nat(n)) == n,
    decreases n,
{
    if n < 10 {
        let whole = spec_dec_nat(n);
        assert(whole =~= seq![(48 + n) as u8]);
        assert(whole.drop_last() =~= Seq::<u8>::empty());
        assert(spec_digits_val(Seq::<u8>::empty()) == 0);
        assert(spec_digits_val(whole) == spec_digits_val(whole.drop_last()) * 10 + (whole.last()
            - 48));
        assert(spec_digits_val(whole) == n);
    } else {
        lemma_dec_nat_digits(n / 10);
        let pre = spec_dec_nat(n / 10);
        let whole = spec_dec_nat(n);
        assert(whole =~= pre + seq![(48 + n % 10) as u8]);
        assert(whole.drop_last() =~= pre);
        assert(whole.last() == (48 + n % 10) as u8);
        assert(whole[0] == pre[0]);
        if n / 10 < 10 {
            assert(pre =~= seq![(48 + n / 10) as u8]);
            assert(n / 10 >= 1);
            assert(pre[0] != 48);
        } else {
            lemma_dec_nat_digits(n / 10 / 10);
            assert(pre == spec_dec_nat(n / 10 / 10) + seq![(48 + (n / 10) % 10) as u8]);
            assert(pre.len() > 1);
        }
        assert(spec_digits_val(whole) == spec_digits_val(pre) * 10 + (whole.last() - 48));
    }
}

/// Value of a run of decimal digit bytes, most significant first.
pub open spec fn spec_digits_val(s: Seq<u8>) -> int
    decreases s.len(),
{
    if s.len() == 0 {
        0
    } else {
        spec_digits_val(s.drop_last()) * 10 + (s.last() - 48)
    }
}

/// The end of the digit run beginning at `i`.
pub open spec fn spec_digits_end(b: Seq<u8>, i: int) -> int
    decreases b.len() - i when 0 <= i <= b.len()
{
    if i < b.len() && spec_is_digit(b[i]) {
        spec_digits_end(b, i + 1)
    } else {
        i
    }
}

/// Scans a decimal integer at `i`: an optional minus sign and a digit run
/// with no leading zero, whose value must fit in an `i64`. Returns the value
/// and the position just past the digits.
pub open spec fn spec_scan_i64(b: Seq<u8>, i: int) -> Option<(i64, int)>
    recommends
        0 <= i <= b.len(),
{
    let neg = i < b.len() && b[i] == 45;
    let ds = if neg {
        i + 1
    } else {
        i
    };
    let de = spec_digits_end(b, ds);
    if de == ds {
        None
    } else if b[ds] == 48 && de > ds + 1 {
        None
    } else {
        let v = spec_digits_val(b.subrange(ds, de));
        if neg {
            if 1 <= v <= 0x8000_0000_0000_0000 {
                Some(((-v) as i64, de))
            } else {
                None
            }
        } else {
            if v <= 0x7fff_ffff_ffff_ffff {
                Some((v as i64, de))
            } else {
                None
            }
        }
    }
}

/// Ten to the `k`.
pub open spec fn spec_pow10(k: nat) -> int
    decreases k,
{
    if k == 0 {
        1
    } else {
        10 * spec_pow10((k - 1) as nat)
    }
}

proof fn lemma_pow10_pos(k: nat)
    ensures
        spec_pow10(k) >= 1,
    decreases k,
{
    if k > 0 {
        lemma_pow10_pos((k - 1) as nat);
    }
}

proof fn lemma_pow10_values()
    ensures
        spec_pow10(18) == 1_000_000_000_000_000_000,
        spec_pow10(19) == 10_000_000_000_000_000_000,
{
    assert(spec_pow10(0) == 1);
    assert(spec_pow10(1) == 10);
    assert(spec_pow10(2) == 100);
    assert(spec_pow10(3) == 1000);
    assert(spec_pow10(4) == 10000);
    assert(spec_pow10(5) == 100000);
    assert(spec_pow10(6) == 1000000);
    assert(spec_pow10(7) == 10000000);
    assert(spec_pow10(8) == 100000000);
    assert(spec_pow10(9) == 1000000000);
    assert(spec_pow10(10) == 10000000000);
    assert(spec_pow10(11) == 100000000000);
    assert(spec_pow10(12) == 1000000000000);
    assert(spec_pow10(13) == 10000000000000);
    assert(spec_pow10(14) == 100000000000000);
    assert(spec_pow10(15) == 1000000000000000);
    assert(spec_pow10(16) == 10000000000000000);
    assert(spec_pow10(17) == 100000000000000000);
    assert(spec_pow10(18) == 1000000000000000000);
    assert(spec_pow10(19) == 10000000000000000000);
}

/// A digit run's value grows with its length: below ten to the length.
proof fn lemma_digits_val_len_bound(s: Seq<u8>)
    requires
        forall|k: int| 0 <= k < s.len() ==> spec_is_digit(#[trigger] s[k]),
    ensures
        0 <= spec_digits_val(s),
        s.len() <= 19 ==> spec_digits_val(s) < 10_000_000_000_000_000_000,
    decreases s.len(),
{
    if s.len() > 0 {
        lemma_digits_val_len_bound(s.drop_last());
        if s.len() <= 19 {
            assert(s.drop_last().len() <= 18);
            lemma_digits_val_len_small(s.drop_last());
        }
    }
}

/// Bound for runs of up to eighteen digits, used one step down.
proof fn lemma_digits_val_len_small(s: Seq<u8>)
    requires
        forall|k: int| 0 <= k < s.len() ==> spec_is_digit(#[trigger] s[k]),
        s.len() <= 18,
    ensures
        0 <= spec_digits_val(s) < 1_000_000_000_000_000_000,
{
    lemma_pow10_values();
    lemma_digits_val_len_small_rec(s, 18);
}

/// A run of at most `k` digits is below ten to the `k`.
proof fn lemma_digits_val_len_small_rec(s: Seq<u8>, k: int)
    requires
        forall|j: int| 0 <= j < s.len() ==> spec_is_digit(#[trigger] s[j]),
        0 <= s.len() <= k <= 18,
    ensures
        0 <= spec_digits_val(s) < spec_pow10(k as nat),
    decreases k,
{
    lemma_pow10_pos(k as nat);
    if s.len() == 0 {
    } else {
        lemma_digits_val_len_small_rec(s.drop_last(), k - 1);
        assert(spec_pow10(k as nat) == 10 * spec_pow10((k - 1) as nat));
        assert(spec_digits_val(s) == spec_digits_val(s.drop_last()) * 10 + (s.last() - 48));
    }
}

/// A nineteen-or-fewer digit value fits strictly under `2^63 + 1` only by
/// value; the exec scanner therefore compares against the numeric bounds.
fn scan_i64(b: &[u8], i: usize) -> (r: Option<(i64, usize)>)
    requires
        i <= b@.len(),
    ensures
        match r {
            Some((v, j)) => spec_scan_i64(b@, i as int) == Some((v, j as int)) && i < j
                <= b@.len(),
            None => spec_scan_i64(b@, i as int) is None,
        },
{
    let neg = i < b.len() && b[i] == 45;
    let ds: usize = if neg {
        i + 1
    } else {
        i
    };
    let mut de: usize = ds;
    while de < b.len() && 48 <= b[de] && b[de] <= 57
        invariant
            ds <= de <= b@.len(),
            spec_digits_end(b@, ds as int) == spec_digits_end(b@, de as int),
            forall|k: int| ds <= k < de ==> spec_is_digit(#[trigger] b@[k]),
        decreases b@.len() - de,
    {
        de = de + 1;
    }
    assert(spec_digits_end(b@, de as int) == de);
    if de == ds {
        return None;
    }
    if b[ds] == 48 && de > ds + 1 {
        return None;
    }
    proof {
        assert(forall|k: int|
            0 <= k < b@.subrange(ds as int, de as int).len() ==> spec_is_digit(
                #[trigger] b@.subrange(ds as int, de as int)[k],
            ));
        lemma_digits_val_len_bound(b@.subrange(ds as int, de as int));
    }
    if de - ds > 19 {
        proof {
            lemma_digits_val_long(b@.subrange(ds as int, de as int));
        }
        return None;
    }
    let mut acc: u64 = 0;
    let mut k: usize = ds;
    while k < de
        invariant
            ds <= k <= de <= b@.len(),
            de - ds <= 19,
            forall|j: int| ds <= j < de ==> spec_is_digit(#[trigger] b@[j]),
            acc == spec_digits_val(b@.subrange(ds as int, k as int)),
        decreases de - k,
    {
        proof {
            assert(b@.subrange(ds as int, k as int).len() <= 18);
            lemma_digits_val_len_small(b@.subrange(ds as int, k as int));
            assert(b@.subrange(ds as int, k as int + 1).drop_last() =~= b@.subrange(
                ds as int,
                k as int,
            ));
        }
        acc = acc * 10 + (b[k] - 48) as u64;
        k = k + 1;
    }
    proof {
        assert(b@.subrange(ds as int, de as int) =~= b@.subrange(ds as int, k as int));
    }
    if neg {
        if acc >= 1 && acc <= 0x8000_0000_0000_0000 {
            let v: i64 = if acc == 0x8000_0000_0000_0000 {
                i64::MIN
            } else {
                -(acc as i64)
            };
            Some((v, de))
        } else {
            None
        }
    } else {
        if acc <= 0x7fff_ffff_ffff_ffff {
            Some((acc as i64, de))
        } else {
            None
        }
    }
}

/// A run of twenty or more digits without a leading zero exceeds the
/// sixty-four-bit bounds.
proof fn lemma_digits_val_long(s: Seq<u8>)
    requires
        forall|k: int| 0 <= k < s.len() ==> spec_is_digit(#[trigger] s[k]),
        s.len() >= 20,
        s[0] != 48,
    ensures
        spec_digits_val(s) > 0x8000_0000_0000_0000,
    decreases s.len(),
{
    if s.len() == 20 {
        lemma_digits_min_value(s, 20);
        lemma_pow10_values();
    } else {
        lemma_digits_val_long(s.drop_last());
        assert(s.drop_last()[0] == s[0]);
        assert(spec_digits_val(s) == spec_digits_val(s.drop_last()) * 10 + (s.last() - 48));
    }
}

/// A run of `k` digits with a nonzero first digit is at least ten to the
/// `k - 1`.
proof fn lemma_digits_min_value(s: Seq<u8>, k: int)
    requires
        forall|j: int| 0 <= j < s.len() ==> spec_is_digit(#[trigger] s[j]),
        s.len() == k,
        k >= 1,
        s[0] != 48,
    ensures
        spec_digits_val(s) >= spec_pow10((k - 1) as nat),
    decreases k,
{
    assert(spec_is_digit(s[s.len() - 1]));
    assert(s.last() == s[s.len() - 1]);
    if k == 1 {
        assert(spec_pow10(0) == 1);
        assert(spec_digits_val(s) == spec_digits_val(s.drop_last()) * 10 + (s.last() - 48));
        assert(s.drop_last().len() == 0);
        assert(spec_digits_val(s.drop_last()) == 0);
    } else {
        lemma_digits_min_value(s.drop_last(), k - 1);
        assert(s.drop_last()[0] == s[0]);
        assert(spec_pow10((k - 1) as nat) == 10 * spec_pow10((k - 2) as nat));
        assert(spec_digits_val(s) == spec_digits_val(s.drop_last()) * 10 + (s.last() - 48));
    }
}

/// Appends the decimal digits of `n` to `out`.
fn fmt_u64(out: &mut Vec<u8>, n: u64)
    ensures
        final(out)@ == old(out)@ + spec_dec_nat(n as int),
    decreases n,
{
    if n < 10 {
        out.push(48 + n as u8);
        proof {
            assert(out@ =~= old(out)@ + spec_dec_nat(n as int));
        }
    } else {
        fmt_u64(out, n / 10);
        out.push(48 + (n % 10) as u8);
        proof {
            assert(out@ =~= old(out)@ + spec_dec_nat(n as int));
        }
    }
}

/// Appends the decimal rendering of `n`, sign included, to `out`.
fn fmt_i64(out: &mut Vec<u8>, n: i64)
    ensures
        final(out)@ == old(out)@ + spec_dec_int(n as int),
{
    if n < 0 {
        out.push(45);
        let mag: u64 = if n == i64::MIN {
            0x8000_0000_0000_0000u64
        } else {
            (-n) as u64
        };
        fmt_u64(out, mag);
        proof {
            assert(out@ =~= old(out)@ + spec_dec_int(n as int));
        }
    } else {
        fmt_u64(out, n as u64);
    }
}


// ---------------------------------------------------------------------------
// Literals and fields
// ---------------------------------------------------------------------------
/// Matches the exact bytes `l` at position `i`.
pub open spec fn spec_take_lit(b: Seq<u8>, i: int, l: Seq<u8>) -> Option<int> {
    if 0 <= i && i + l.len() <= b.len() && b.subrange(i, i + l.len()) == l {
        Some(i + l.len())
    } else {
        None
    }
}

/// Matches the single byte `c` at position `i`.
pub open spec fn spec_take_byte(b: Seq<u8>, i: int, c: u8) -> Option<int> {
    if 0 <= i < b.len() && b[i] == c {
        Some(i + 1)
    } else {
        None
    }
}

fn expect_lit(b: &[u8], i: usize, lit: &str) -> (r: Option<usize>)
    requires
        i <= b@.len(),
    ensures
        match r {
            Some(j) => spec_take_lit(b@, i as int, lit.spec_bytes()) == Some(j as int) && i <= j
                <= b@.len(),
            None => spec_take_lit(b@, i as int, lit.spec_bytes()) is None,
        },
{
    let lb = lit.as_bytes();
    let blen = b.len();
    let lblen = lb.len();
    if blen - i < lblen {
        return None;
    }
    let mut k: usize = 0;
    while k < lblen
        invariant
            k <= lb@.len(),
            lblen == lb@.len(),
            blen == b@.len(),
            lb@ == lit.spec_bytes(),
            i + lb@.len() <= b@.len(),
            forall|t: int| 0 <= t < k ==> b@[i + t] == lb@[t],
        decreases lb@.len() - k,
    {
        if b[i + k] != lb[k] {
            proof {
                let li = lit.spec_bytes();
                let su = b@.subrange(i as int, i as int + li.len() as int);
                assert(lb@ == li);
                assert(su.len() == li.len());
                assert(su[k as int] == b@[i as int + k as int]);
                assert(su[k as int] != li[k as int]);
                assert(su != li);
                assert(spec_take_lit(b@, i as int, li) is None);
            }
            return None;
        }
        k += 1;
    }
    proof {
        assert(b@.subrange(i as int, i + lb@.len()) =~= lb@);
    }
    Some(i + lb.len())
}

fn expect_byte(b: &[u8], i: usize, c: u8) -> (r: Option<usize>)
    requires
        i <= b@.len(),
    ensures
        match r {
            Some(j) => spec_take_byte(b@, i as int, c) == Some(j as int) && i < j <= b@.len(),
            None => spec_take_byte(b@, i as int, c) is None,
        },
{
    if i < b.len() && b[i] == c {
        Some(i + 1)
    } else {
        None
    }
}

/// Appends the bytes of an ASCII key literal to `out`.
fn push_lit(out: &mut Vec<u8>, lit: &str)
    ensures
        final(out)@ == old(out)@ + lit.spec_bytes(),
{
    let lb = lit.as_bytes();
    let mut k: usize = 0;
    while k < lb.len()
        invariant
            k <= lb@.len(),
            out@ == old(out)@ + lb@.take(k as int),
        decreases lb@.len() - k,
    {
        out.push(lb[k]);
        proof {
            assert(lb@.take(k as int + 1) =~= lb@.take(k as int).push(lb@[k as int]));
            assert(out@ =~= old(out)@ + lb@.take(k as int + 1));
        }
        k += 1;
    }
    proof {
        assert(lb@.take(lb@.len() as int) =~= lb@);
    }
}

/// Relies on `String::from_utf8`: it accepts exactly the byte runs that are
/// valid UTF-8 and decodes them to the characters they encode.
#[verifier::external_body]
fn bytes_to_string(v: Vec<u8>) -> (r: Option<String>)
    ensures
        match r {
            Some(s) => valid_utf8(v@) && s@ == decode_utf8(v@),
            None => !valid_utf8(v@),
        },
{
    match String::from_utf8(v) {
        Ok(s) => Some(s),
        Err(_) => None,
    }
}

/// A key literal followed by quoted, escaped string content: the decoded
/// content and the position just past the closing quote.
pub open spec fn spec_parse_str_field(b: Seq<u8>, i: int, l: Seq<u8>) -> Option<(Seq<char>, int)> {
    match spec_take_lit(b, i, l) {
        Some(j) => match spec_scan_string(b, j) {
            Some((c, k)) => if valid_utf8(c) {
                Some((decode_utf8(c), k))
            } else {
                None
            },
            None => None,
        },
        None => None,
    }
}

fn parse_str_field(b: &[u8], i: usize, lit: &str) -> (r: Option<(String, usize)>)
    requires
        i <= b@.len(),
    ensures
        match r {
            Some((s, j)) => spec_parse_str_field(b@, i as int, lit.spec_bytes()) == Some(
                (s@, j as int),
            ) && i < j <= b@.len(),
            None => spec_parse_str_field(b@, i as int, lit.spec_bytes()) is None,
        },
{
    match expect_lit(b, i, lit) {
        Some(j) => match scan_string(b, j) {
            Some((c, k)) => {
                let ghost cv = c@;
                match bytes_to_string(c) {
                    Some(s) => Some((s, k)),
                    None => None,
                }
            },
            None => None,
        },
        None => None,
    }
}

/// A key literal followed by a decimal integer: the value and the position
/// just past its digits.
pub open spec fn spec_parse_i64_field(b: Seq<u8>, i: int, l: Seq<u8>) -> Option<(i64, int)> {
    match spec_take_lit(b, i, l) {
        Some(j) => spec_scan_i64(b, j),
        None => None,
    }
}

/// As [`spec_parse_i64_field`], further requiring the value to fit in `i32`.
pub open spec fn spec_parse_i32_field(b: Seq<u8>, i: int, l: Seq<u8>) -> Option<(i32, int)> {
    match spec_parse_i64_field(b, i, l) {
        Some((v, j)) => if -0x8000_0000 <= v <= 0x7fff_ffff {
            Some((v as i32, j))
        } else {
            None
        },
        None => None,
    }
}

fn parse_i64_field(b: &[u8], i: usize, lit: &str) -> (r: Option<(i64, usize)>)
    requires
        i <= b@.len(),
    ensures
        match r {
            Some((v, j)) => spec_parse_i64_field(b@, i as int, lit.spec_bytes()) == Some(
                (v, j as int),
            ) && i < j <= b@.len(),
            None => spec_parse_i64_field(b@, i as int, lit.spec_bytes()) is None,
        },
{
    match expect_lit(b, i, lit) {
        Some(j) => scan_i64(b, j),
        None => None,
    }
}

fn parse_i32_field(b: &[u8], i: usize, lit: &str) -> (r: Option<(i32, usize)>)
    requires
        i <= b@.len(),
    ensures
        match r {
            Some((v, j)) => spec_parse_i32_field(b@, i as int, lit.spec_bytes()) == Some(
                (v, j as int),
            ) && i < j <= b@.len(),
            None => spec_parse_i32_field(b@, i as int, lit.spec_bytes()) is None,
        },
{
    match parse_i64_field(b, i, lit) {
        Some((v, j)) => {
            if -0x8000_0000i64 <= v && v <= 0x7fff_ffffi64 {
                Some((v as i32, j))
            } else {
                None
            }
        },
        None => None,
    }
}

/// Appends a key literal and the quoted, escaped content of `s`.
fn push_str_field(out: &mut Vec<u8>, lit: &str, s: &str)
    ensures
        final(out)@ == old(out)@ + fld_str(lit.spec_bytes(), s@),
{
    push_lit(out, lit);
    escape_into(out, s.as_bytes());
    out.push(34);
    proof {
        reveal(fld_str);
        assert(out@ =~= old(out)@ + fld_str(lit.spec_bytes(), s@));
    }
}

/// Appends a key literal and the decimal rendering of `n`.
fn push_i64_field(out: &mut Vec<u8>, lit: &str, n: i64)
    ensures
        final(out)@ == old(out)@ + fld_int(lit.spec_bytes(), n as int),
{
    push_lit(out, lit);
    fmt_i64(out, n);
    proof {
        reveal(fld_int);
        assert(out@ =~= old(out)@ + fld_int(lit.spec_bytes(), n as int));
    }
}

// ---------------------------------------------------------------------------
// Round trips for fields
// ---------------------------------------------------------------------------
/// A rendered hex digit scans back to its value.
proof fn lemma_hex_digit_val(v: u8)
    requires
        v < 16,
    ensures
        spec_hex_val(spec_hex_digit(v)) == Some(v),
{
}

/// Scanning the escape of `s` followed by a closing quote yields `s` exactly.
pub proof fn lemma_scan_esc(b: Seq<u8>, i: int, s: Seq<u8>)
    requires
        0 <= i,
        i + spec_esc(s).len() + 1 <= b.len(),
        b.subrange(i, i + spec_esc(s).len() + 1) == spec_esc(s) + seq![34u8],
    ensures
        spec_scan_string(b, i) == Some((s, i + spec_esc(s).len() + 1)),
    decreases s.len(),
{
    let e = spec_esc(s);
    let sub = b.subrange(i, i + e.len() + 1);
    assert forall|k: int| 0 <= k < e.len() + 1 implies b[i + k] == (e + seq![34u8])[k] by {
        assert(sub[k] == b[i + k]);
    }
    if s.len() == 0 {
        assert(b[i] == sub[0]);
        assert(b[i] == 34);
    } else {
        let h = s[0];
        let eb = spec_esc_byte(h);
        let rest = s.skip(1);
        let er = spec_esc(rest);
        assert(e == eb + er);
        assert forall|k: int| 0 <= k < eb.len() implies b[i + k] == eb[k] by {
            assert(b[i + k] == sub[k]);
            assert((e + seq![34u8])[k] == e[k]);
            assert(e[k] == eb[k]);
        }
        assert(b[i] == eb[0]) by {
            assert(b[i + 0] == eb[0]);
        }
        if eb.len() > 1 {
            assert(b[i + 1] == eb[1]);
        }
        assert(b.subrange(i + eb.len(), i + e.len() + 1) =~= er + seq![34u8]) by {
            assert forall|k: int|
                0 <= k < er.len() + 1 implies b.subrange(i + eb.len(), i + e.len() + 1)[k] == (er
                + seq![34u8])[k] by {
                assert(b.subrange(i + eb.len(), i + e.len() + 1)[k] == b[i + eb.len() + k]);
                assert(b[i + eb.len() + k] == (e + seq![34u8])[eb.len() + k]);
                if k < er.len() {
                    assert((e + seq![34u8])[eb.len() + k] == e[eb.len() + k]);
                    assert(e[eb.len() + k] == er[k]);
                }
            }
        }
        lemma_scan_esc(b, i + eb.len(), rest);
        assert(seq![h] + rest =~= s);
        if h == 34 {
            assert(b[i] == 92 && b[i + 1] == 34);
        } else if h == 92 {
            assert(b[i] == 92 && b[i + 1] == 92);
        } else if h < 32 {
            assert(b[i] == 92 && b[i + 1] == 117 && b[i + 2] == 48 && b[i + 3] == 48);
            assert(b[i + 4] == spec_hex_digit(h / 16) && b[i + 5] == spec_hex_digit(h % 16));
            lemma_hex_digit_val(h / 16);
            lemma_hex_digit_val(h % 16);
            assert((h / 16) * 16 + (h % 16) == h);
            assert(spec_scan_string(b, i) == Some((seq![h] + rest, i + e.len() + 1)));
        } else {
            assert(b[i] == h);
            assert(h != 34 && h != 92);
        }
    }
}

/// The end of a digit run bounded by a non-digit or the end of input.
proof fn lemma_digits_end_run(b: Seq<u8>, i: int, j: int)
    requires
        0 <= i <= j <= b.len(),
        forall|k: int| i <= k < j ==> spec_is_digit(#[trigger] b[k]),
        j == b.len() || !spec_is_digit(b[j]),
    ensures
        spec_digits_end(b, i) == j,
    decreases j - i,
{
    if i < j {
        lemma_digits_end_run(b, i + 1, j);
    }
}

/// Scanning the decimal rendering of `n`, followed by a non-digit or the end
/// of input, yields `n` exactly.
pub proof fn lemma_scan_dec(b: Seq<u8>, i: int, n: i64)
    requires
        0 <= i,
        i + spec_dec_int(n as int).len() <= b.len(),
        b.subrange(i, i + spec_dec_int(n as int).len()) == spec_dec_int(n as int),
        i + spec_dec_int(n as int).len() == b.len() || !spec_is_digit(
            b[i + spec_dec_int(n as int).len()],
        ),
    ensures
        spec_scan_i64(b, i) == Some((n, i + spec_dec_int(n as int).len())),
{
    let d = spec_dec_int(n as int);
    let sub = b.subrange(i, i + d.len());
    assert forall|k: int| 0 <= k < d.len() implies b[i + k] == d[k] by {
        assert(sub[k] == b[i + k]);
    }
    let neg = n < 0;
    let m: int = if neg {
        -(n as int)
    } else {
        n as int
    };
    let dn = spec_dec_nat(m);
    lemma_dec_nat_digits(m);
    let ds: int = if neg {
        i + 1
    } else {
        i
    };
    if neg {
        assert(d == seq![45u8] + dn);
        assert(b[i] == sub[0]);
        assert(b[i] == 45);
        assert forall|k: int| ds <= k < ds + dn.len() implies spec_is_digit(#[trigger] b[k]) by {
            assert(b[k] == sub[k - i]);
            assert(sub[k - i] == d[k - i]);
            assert(d[k - i] == dn[k - ds]);
        }
    } else {
        assert(d == dn);
        assert(b[i] == sub[0]);
        assert(b[i] == dn[0]);
        assert(spec_is_digit(dn[0]));
        assert(b[i] != 45);
        assert forall|k: int| ds <= k < ds + dn.len() implies spec_is_digit(#[trigger] b[k]) by {
            assert(b[k] == sub[k - i]);
            assert(sub[k - i] == d[k - i]);
        }
    }
    lemma_digits_end_run(b, ds, ds + dn.len());
    assert(b.subrange(ds, ds + dn.len()) =~= dn) by {
        assert forall|k: int| 0 <= k < dn.len() implies b.subrange(ds, ds + dn.len())[k] == dn[k]
            by {
            assert(b.subrange(ds, ds + dn.len())[k] == b[ds + k]);
            assert(b[ds + k] == sub[ds + k - i]);
            assert(sub[ds + k - i] == d[ds + k - i]);
        }
    }
    if dn.len() > 1 {
        assert(b[ds] == sub[ds - i]);
        assert(b[ds] == dn[0]);
        assert(dn[0] != 48);
    }
}

/// Splits a matched concatenation into its head and its tail.
proof fn lemma_split_head(b: Seq<u8>, i: int, x: Seq<u8>, y: Seq<u8>)
    requires
        0 <= i,
        i + x.len() + y.len() <= b.len(),
        b.subrange(i, i + x.len() + y.len()) == x + y,
    ensures
        b.subrange(i, i + x.len()) == x,
        b.subrange(i + x.len(), i + x.len() + y.len()) == y,
{
    let s = b.subrange(i, i + x.len() + y.len());
    assert(b.subrange(i, i + x.len()) =~= x) by {
        assert forall|k: int| 0 <= k < x.len() implies b.subrange(i, i + x.len())[k] == x[k] by {
            assert(b.subrange(i, i + x.len())[k] == b[i + k]);
            assert(s[k] == b[i + k]);
            assert(s[k] == (x + y)[k]);
        }
    }
    assert(b.subrange(i + x.len(), i + x.len() + y.len()) =~= y) by {
        assert forall|k: int|
            0 <= k < y.len() implies b.subrange(i + x.len(), i + x.len() + y.len())[k] == y[k] by {
            assert(b.subrange(i + x.len(), i + x.len() + y.len())[k] == b[i + x.len() + k]);
            assert(s[x.len() + k] == b[i + (x.len() + k)]);
            assert(s[x.len() + k] == (x + y)[x.len() + k]);
        }
    }
}

/// The bytes of one string-valued field: its key literal, the escaped
/// content, and the closing quote.
#[verifier::opaque]
pub open spec fn fld_str(l: Seq<u8>, s: Seq<char>) -> Seq<u8> {
    l + spec_esc(encode_utf8(s)) + seq![34u8]
}

/// The bytes of one integer-valued field: its key literal and the decimal
/// rendering.
#[verifier::opaque]
pub open spec fn fld_int(l: Seq<u8>, n: int) -> Seq<u8> {
    l + spec_dec_int(n)
}

/// Parsing a rendered string field at its own offset yields the string back.
pub proof fn lemma_str_field_rt(b: Seq<u8>, i: int, l: Seq<u8>, s: Seq<char>)
    requires
        0 <= i,
        i + fld_str(l, s).len() <= b.len(),
        b.subrange(i, i + fld_str(l, s).len()) == fld_str(l, s),
    ensures
        spec_parse_str_field(b, i, l) == Some((s, i + fld_str(l, s).len())),
{
    broadcast use vstd::utf8::encode_utf8_valid_utf8;
    broadcast use vstd::utf8::encode_utf8_decode_utf8;

    reveal(fld_str);
    let u = encode_utf8(s);
    let e = spec_esc(u);
    let sub = b.subrange(i, i + l.len() + e.len() + 1);
    assert forall|k: int| 0 <= k < l.len() + e.len() + 1 implies b[i + k] == (l + e + seq![34u8])[k]
        by {
        assert(sub[k] == b[i + k]);
    }
    assert(b.subrange(i, i + l.len()) =~= l) by {
        assert forall|k: int| 0 <= k < l.len() implies b.subrange(i, i + l.len())[k] == l[k] by {
            assert(b.subrange(i, i + l.len())[k] == b[i + k]);
            assert((l + e + seq![34u8])[k] == l[k]);
        }
    }
    assert(spec_take_lit(b, i, l) == Some(i + l.len()));
    assert(b.subrange(i + l.len(), i + l.len() + e.len() + 1) =~= e + seq![34u8]) by {
        assert forall|k: int|
            0 <= k < e.len() + 1 implies b.subrange(i + l.len(), i + l.len() + e.len() + 1)[k] == (
        e + seq![34u8])[k] by {
            assert(b.subrange(i + l.len(), i + l.len() + e.len() + 1)[k] == b[i + l.len() + k]);
            assert((l + e + seq![34u8])[l.len() + k] == (e + seq![34u8])[k]);
        }
    }
    lemma_scan_esc(b, i + l.len(), u);
}

/// Parsing a rendered integer field at its own offset yields the value back.
pub proof fn lemma_i64_field_rt(b: Seq<u8>, i: int, l: Seq<u8>, n: i64)
    requires
        0 <= i,
        i + fld_int(l, n as int).len() <= b.len(),
        b.subrange(i, i + fld_int(l, n as int).len()) == fld_int(l, n as int),
        i + fld_int(l, n as int).len() == b.len() || !spec_is_digit(
            b[i + fld_int(l, n as int).len()],
        ),
    ensures
        spec_parse_i64_field(b, i, l) == Some((n, i + fld_int(l, n as int).len())),
{
    reveal(fld_int);
    let d = spec_dec_int(n as int);
    let sub = b.subrange(i, i + l.len() + d.len());
    assert forall|k: int| 0 <= k < l.len() + d.len() implies b[i + k] == (l + d)[k] by {
        assert(sub[k] == b[i + k]);
    }
    assert(b.subrange(i, i + l.len()) =~= l) by {
        assert forall|k: int| 0 <= k < l.len() implies b.subrange(i, i + l.len())[k] == l[k] by {
            assert(b.subrange(i, i + l.len())[k] == b[i + k]);
            assert((l + d)[k] == l[k]);
        }
    }
    assert(spec_take_lit(b, i, l) == Some(i + l.len()));
    assert(b.subrange(i + l.len(), i + l.len() + d.len()) =~= d) by {
        assert forall|k: int|
            0 <= k < d.len() implies b.subrange(i + l.len(), i + l.len() + d.len())[k] == d[k] by {
            assert(b.subrange(i + l.len(), i + l.len() + d.len())[k] == b[i + l.len() + k]);
            assert((l + d)[l.len() + k] == d[k]);
        }
    }
    lemma_scan_dec(b, i + l.len(), n);
}

/// As [`lemma_i64_field_rt`], for a value that fits in `i32`.
pub proof fn lemma_i32_field_rt(b: Seq<u8>, i: int, l: Seq<u8>, n: i32)
    requires
        0 <= i,
        i + fld_int(l, n as int).len() <= b.len(),
        b.subrange(i, i + fld_int(l, n as int).len()) == fld_int(l, n as int),
        i + fld_int(l, n as int).len() == b.len() || !spec_is_digit(
            b[i + fld_int(l, n as int).len()],
        ),
    ensures
        spec_parse_i32_field(b, i, l) == Some((n, i + fld_int(l, n as int).len())),
{
    lemma_i64_field_rt(b, i, l, n as i64);
}


// ---------------------------------------------------------------------------
// Messages: submitted order
// ---------------------------------------------------------------------------
/// The canonical document of a submitted order.
pub open spec fn spec_encode_payload(m: OrderPayloadModel) -> Seq<u8> {
    seq![123u8] + fld_str(("\"location\":\"").spec_bytes(), m.location) + fld_str(
        (",\"timestamp\":\"").spec_bytes(),
        m.timestamp,
    ) + fld_int((",\"data\":{\"a\":").spec_bytes(), m.data.a as int) + seq![44u8] + fld_int(
        ("\"b\":").spec_bytes(),
        m.data.b as int,
    ) + seq![44u8] + fld_int(("\"c\":").spec_bytes(), m.data.c as int) + seq![44u8] + fld_int(
        ("\"d\":").spec_bytes(),
        m.data.d as int,
    ) + seq![125u8, 125u8]
}

/// The submitted order a document denotes, if it is one.
pub open spec fn spec_parse_payload(b: Seq<u8>) -> Option<OrderPayloadModel> {
    match spec_take_byte(b, 0, 123) {
        None => None,
        Some(i0) => match spec_parse_str_field(b, i0, ("\"location\":\"").spec_bytes()) {
            None => None,
            Some((loc, i1)) => match spec_parse_str_field(b, i1, (",\"timestamp\":\"").spec_bytes()) {
                None => None,
                Some((ts, i2)) => match spec_parse_i32_field(b, i2, (",\"data\":{\"a\":").spec_bytes()) {
                    None => None,
                    Some((va, i3)) => match spec_take_byte(b, i3, 44) {
                        None => None,
                        Some(i4) => match spec_parse_i32_field(b, i4, ("\"b\":").spec_bytes()) {
                            None => None,
                            Some((vb, i5)) => match spec_take_byte(b, i5, 44) {
                                None => None,
                                Some(i6) => match spec_parse_i32_field(b, i6, ("\"c\":").spec_bytes()) {
                                    None => None,
                                    Some((vc, i7)) => match spec_take_byte(b, i7, 44) {
                                        None => None,
                                        Some(i8) => match spec_parse_i32_field(b, i8, ("\"d\":").spec_bytes()) {
                                            None => None,
                                            Some((vd, i9)) => match spec_take_byte(b, i9, 125) {
                                                None => None,
                                                Some(i10) => match spec_take_byte(b, i10, 125) {
                                                    None => None,
                                                    Some(i11) => if i11 == b.len() {
                                                        Some(
                                                            OrderPayloadModel {
                                                                location: loc,
                                                                timestamp: ts,
                                                                data: Data { a: va, b: vb, c: vc, d: vd },
                                                            },
                                                        )
                                                    } else {
                                                        None
                                                    },
                                                },
                                            },
                                        },
                                    },
                                },
                            },
                        },
                    },
                },
            },
        },
    }
}

/// Encodes a submitted order for an enrichment subject.
#[verifier::rlimit(100)]
pub fn encode_order(p: &OrderPayload) -> (r: Vec<u8>)
    ensures
        r@ == spec_encode_payload(p@),
{
    let mut out: Vec<u8> = Vec::new();
    out.push(123);
    push_str_field(&mut out, "\"location\":\"", p.location.as_str());
    push_str_field(&mut out, ",\"timestamp\":\"", p.timestamp.as_str());
    push_i64_field(&mut out, ",\"data\":{\"a\":", p.data.a as i64);
    out.push(44);
    push_i64_field(&mut out, "\"b\":", p.data.b as i64);
    out.push(44);
    push_i64_field(&mut out, "\"c\":", p.data.c as i64);
    out.push(44);
    push_i64_field(&mut out, "\"d\":", p.data.d as i64);
    out.push(125);
    out.push(125);
    proof {
        assert(out@ =~= spec_encode_payload(p@));
    }
    out
}

/// Decodes a submitted order, or nothing if the bytes are malformed.
pub fn parse_order(b: &[u8]) -> (r: Option<OrderPayload>)
    ensures
        match r {
            Some(p) => spec_parse_payload(b@) == Some(p@),
            None => spec_parse_payload(b@) is None,
        },
{
    let i0 = match expect_byte(b, 0, 123) {
        Some(j) => j,
        None => {
            return None;
        },
    };
    let (loc, i1) = match parse_str_field(b, i0, "\"location\":\"") {
        Some(x) => x,
        None => {
            return None;
        },
    };
    let (ts, i2) = match parse_str_field(b, i1, ",\"timestamp\":\"") {
        Some(x) => x,
        None => {
            return None;
        },
    };
    let (va, i3) = match parse_i32_field(b, i2, ",\"data\":{\"a\":") {
        Some(x) => x,
        None => {
            return None;
        },
    };
    let i4 = match expect_byte(b, i3, 44) {
        Some(j) => j,
        None => {
            return None;
        },
    };
    let (vb, i5) = match parse_i32_field(b, i4, "\"b\":") {
        Some(x) => x,
        None => {
            return None;
        },
    };
    let i6 = match expect_byte(b, i5, 44) {
        Some(j) => j,
        None => {
            return None;
        },
    };
    let (vc, i7) = match parse_i32_field(b, i6, "\"c\":") {
        Some(x) => x,
        None => {
            return None;
        },
    };
    let i8 = match expect_byte(b, i7, 44) {
        Some(j) => j,
        None => {
            return None;
        },
    };
    let (vd, i9) = match parse_i32_field(b, i8, "\"d\":") {
        Some(x) => x,
        None => {
            return None;
        },
    };
    let i10 = match expect_byte(b, i9, 125) {
        Some(j) => j,
        None => {
            return None;
        },
    };
    let i11 = match expect_byte(b, i10, 125) {
        Some(j) => j,
        None => {
            return None;
        },
    };
    if i11 != b.len() {
        return None;
    }
    Some(OrderPayload { location: loc, timestamp: ts, data: Data { a: va, b: vb, c: vc, d: vd } })
}

/// Parsing the encoding of a submitted order gives the order back.
#[verifier::rlimit(100)]
pub proof fn lemma_order_round_trip(m: OrderPayloadModel)
    ensures
        spec_parse_payload(spec_encode_payload(m)) == Some(m),
{
    let b = spec_encode_payload(m);
    let l1 = ("\"location\":\"").spec_bytes();
    let l2 = (",\"timestamp\":\"").spec_bytes();
    let l3 = (",\"data\":{\"a\":").spec_bytes();
    let lb = ("\"b\":").spec_bytes();
    let lc = ("\"c\":").spec_bytes();
    let ld = ("\"d\":").spec_bytes();
    let (i0, i1, i2, i3, i4, i5, i6, i7, i8, i9) = payload_offs(m);
    lemma_payload_layout(m);
    lemma_str_field_rt(b, i0, l1, m.location);
    assert(spec_parse_str_field(b, i0, l1) == Some((m.location, i1)));
    lemma_str_field_rt(b, i1, l2, m.timestamp);
    assert(spec_parse_str_field(b, i1, l2) == Some((m.timestamp, i2)));
    lemma_i32_field_rt(b, i2, l3, m.data.a);
    assert(spec_parse_i32_field(b, i2, l3) == Some((m.data.a, i3)));
    lemma_i32_field_rt(b, i4, lb, m.data.b);
    assert(spec_parse_i32_field(b, i4, lb) == Some((m.data.b, i5)));
    lemma_i32_field_rt(b, i6, lc, m.data.c);
    assert(spec_parse_i32_field(b, i6, lc) == Some((m.data.c, i7)));
    lemma_i32_field_rt(b, i8, ld, m.data.d);
    assert(spec_parse_i32_field(b, i8, ld) == Some((m.data.d, i9)));
    assert(spec_parse_payload(b) == Some(m));
}

/// The offsets at which each piece of an encoded submitted order begins or
/// ends.
pub open spec fn payload_offs(m: OrderPayloadModel) -> (
    int,
    int,
    int,
    int,
    int,
    int,
    int,
    int,
    int,
    int,
) {
    let i0 = 1int;
    let i1 = i0 + fld_str(("\"location\":\"").spec_bytes(), m.location).len();
    let i2 = i1 + fld_str((",\"timestamp\":\"").spec_bytes(), m.timestamp).len();
    let i3 = i2 + fld_int((",\"data\":{\"a\":").spec_bytes(), m.data.a as int).len();
    let i4 = i3 + 1;
    let i5 = i4 + fld_int(("\"b\":").spec_bytes(), m.data.b as int).len();
    let i6 = i5 + 1;
    let i7 = i6 + fld_int(("\"c\":").spec_bytes(), m.data.c as int).len();
    let i8 = i7 + 1;
    let i9 = i8 + fld_int(("\"d\":").spec_bytes(), m.data.d as int).len();
    (i0, i1, i2, i3, i4, i5, i6, i7, i8, i9)
}

/// Where every piece of an encoded submitted order stands in the document.
proof fn lemma_payload_layout(m: OrderPayloadModel)
    ensures
        ({
            let b = spec_encode_payload(m);
            let (i0, i1, i2, i3, i4, i5, i6, i7, i8, i9) = payload_offs(m);
            &&& b.len() == i9 + 2
            &&& b[0] == 123
            &&& b.subrange(i0, i1) == fld_str(("\"location\":\"").spec_bytes(), m.location)
            &&& b.subrange(i1, i2) == fld_str((",\"timestamp\":\"").spec_bytes(), m.timestamp)
            &&& b.subrange(i2, i3) == fld_int(
                (",\"data\":{\"a\":").spec_bytes(),
                m.data.a as int,
            )
            &&& b[i3] == 44
            &&& b.subrange(i4, i5) == fld_int(("\"b\":").spec_bytes(), m.data.b as int)
            &&& b[i5] == 44
            &&& b.subrange(i6, i7) == fld_int(("\"c\":").spec_bytes(), m.data.c as int)
            &&& b[i7] == 44
            &&& b.subrange(i8, i9) == fld_int(("\"d\":").spec_bytes(), m.data.d as int)
            &&& b[i9] == 125
            &&& b[i9 + 1] == 125
        }),
{
    let b = spec_encode_payload(m);
    let l1 = ("\"location\":\"").spec_bytes();
    let l2 = (",\"timestamp\":\"").spec_bytes();
    let l3 = (",\"data\":{\"a\":").spec_bytes();
    let lb = ("\"b\":").spec_bytes();
    let lc = ("\"c\":").spec_bytes();
    let ld = ("\"d\":").spec_bytes();
    let f1 = fld_str(l1, m.location);
    let f2 = fld_str(l2, m.timestamp);
    let f3 = fld_int(l3, m.data.a as int);
    let fb = fld_int(lb, m.data.b as int);
    let fc = fld_int(lc, m.data.c as int);
    let fd = fld_int(ld, m.data.d as int);
    let comma = seq![44u8];
    let (i0, i1, i2, i3, i4, i5, i6, i7, i8, i9) = payload_offs(m);
    assert(b.len() == i9 + 2);
    let p8 = seq![123u8] + f1 + f2 + f3 + comma + fb + comma + fc + comma + fd;
    let p7 = seq![123u8] + f1 + f2 + f3 + comma + fb + comma + fc + comma;
    let p6 = seq![123u8] + f1 + f2 + f3 + comma + fb + comma + fc;
    let p5 = seq![123u8] + f1 + f2 + f3 + comma + fb + comma;
    let p4 = seq![123u8] + f1 + f2 + f3 + comma + fb;
    let p3 = seq![123u8] + f1 + f2 + f3 + comma;
    let p2 = seq![123u8] + f1 + f2 + f3;
    let p1 = seq![123u8] + f1 + f2;
    let p0f = seq![123u8] + f1;
    let p0 = seq![123u8];
    assert(b.subrange(0, b.len() as int) =~= b);
    lemma_split_head(b, 0, p8, seq![125u8, 125u8]);
    lemma_split_head(b, 0, p7, fd);
    lemma_split_head(b, 0, p6, comma);
    lemma_split_head(b, 0, p5, fc);
    lemma_split_head(b, 0, p4, comma);
    lemma_split_head(b, 0, p3, fb);
    lemma_split_head(b, 0, p2, comma);
    lemma_split_head(b, 0, p1, f3);
    lemma_split_head(b, 0, p0f, f2);
    lemma_split_head(b, 0, p0, f1);
    assert(b[0] == b.subrange(0, 1)[0]);
    assert(b[i3] == b.subrange(i3, i4)[0]);
    assert(b[i5] == b.subrange(i5, i6)[0]);
    assert(b[i7] == b.subrange(i7, i8)[0]);
    assert(b[i9] == b.subrange(i9, i9 + 2)[0]);
    assert(b[i9 + 1] == b.subrange(i9, i9 + 2)[1]);
}

// ---------------------------------------------------------------------------
// Messages: query
// ---------------------------------------------------------------------------
/// The canonical document of a query.
pub open spec fn spec_encode_query(m: OrderQueryModel) -> Seq<u8> {
    seq![123u8] + fld_str(("\"location\":\"").spec_bytes(), m.location) + fld_str(
        (",\"date\":\"").spec_bytes(),
        m.date,
    ) + seq![125u8]
}

/// The query a document denotes, if it is one.
pub open spec fn spec_parse_query(b: Seq<u8>) -> Option<OrderQueryModel> {
    match spec_take_byte(b, 0, 123) {
        None => None,
        Some(i0) => match spec_parse_str_field(b, i0, ("\"location\":\"").spec_bytes()) {
            None => None,
            Some((loc, i1)) => match spec_parse_str_field(b, i1, (",\"date\":\"").spec_bytes()) {
                None => None,
                Some((date, i2)) => match spec_take_byte(b, i2, 125) {
                    None => None,
                    Some(i3) => if i3 == b.len() {
                        Some(OrderQueryModel { location: loc, date: date })
                    } else {
                        None
                    },
                },
            },
        },
    }
}

/// Encodes a query for a query subject.
pub fn encode_query(q: &OrderQuery) -> (r: Vec<u8>)
    ensures
        r@ == spec_encode_query(q@),
{
    let mut out: Vec<u8> = Vec::new();
    out.push(123);
    push_str_field(&mut out, "\"location\":\"", q.location.as_str());
    push_str_field(&mut out, ",\"date\":\"", q.date.as_str());
    out.push(125);
    proof {
        assert(out@ =~= spec_encode_query(q@));
    }
    out
}

/// Decodes a query, or nothing if the bytes are malformed.
pub fn parse_query(b: &[u8]) -> (r: Option<OrderQuery>)
    ensures
        match r {
            Some(q) => spec_parse_query(b@) == Some(q@),
            None => spec_parse_query(b@) is None,
        },
{
    let i0 = match expect_byte(b, 0, 123) {
        Some(j) => j,
        None => {
            return None;
        },
    };
    let (loc, i1) = match parse_str_field(b, i0, "\"location\":\"") {
        Some(x) => x,
        None => {
            return None;
        },
    };
    let (date, i2) = match parse_str_field(b, i1, ",\"date\":\"") {
        Some(x) => x,
        None => {
            return None;
        },
    };
    let i3 = match expect_byte(b, i2, 125) {
        Some(j) => j,
        None => {
            return None;
        },
    };
    if i3 != b.len() {
        return None;
    }
    Some(OrderQuery { location: loc, date })
}

/// Parsing the encoding of a query gives the query back.
#[verifier::rlimit(100)]
pub proof fn lemma_query_round_trip(m: OrderQueryModel)
    ensures
        spec_parse_query(spec_encode_query(m)) == Some(m),
{
    let b = spec_encode_query(m);
    let l1 = ("\"location\":\"").spec_bytes();
    let l2 = (",\"date\":\"").spec_bytes();
    let f1 = fld_str(l1, m.location);
    let f2 = fld_str(l2, m.date);
    let i0: int = 1;
    let i1 = i0 + f1.len();
    let i2 = i1 + f2.len();
    assert(b.len() == i2 + 1);
    let p2 = seq![123u8] + f1 + f2;
    let p1 = seq![123u8] + f1;
    let p0 = seq![123u8];
    assert(b.subrange(0, b.len() as int) =~= b);
    lemma_split_head(b, 0, p2, seq![125u8]);
    lemma_split_head(b, 0, p1, f2);
    lemma_split_head(b, 0, p0, f1);
    assert(b[0] == b.subrange(0, 1)[0]);
    assert(b[0] == 123);
    assert(b[i2] == b.subrange(i2, i2 + 1)[0]);
    assert(b[i2] == 125);
    lemma_str_field_rt(b, i0, l1, m.location);
    assert(spec_parse_str_field(b, i0, l1) == Some((m.location, i1)));
    lemma_str_field_rt(b, i1, l2, m.date);
    assert(spec_parse_str_field(b, i1, l2) == Some((m.date, i2)));
    assert(spec_parse_query(b) == Some(m));
}

// ---------------------------------------------------------------------------
// Messages: normalized order
// ---------------------------------------------------------------------------
/// The canonical document of a normalized order.
pub open spec fn spec_encode_normalized(m: OrderDetailPayloadModel) -> Seq<u8> {
    seq![123u8] + fld_str(("\"location\":\"").spec_bytes(), m.location) + fld_int(
        (",\"timestamp\":").spec_bytes(),
        m.timestamp as int,
    ) + seq![44u8] + fld_str(("\"signature\":\"").spec_bytes(), m.signature) + fld_int(
        (",\"material\":").spec_bytes(),
        m.material as int,
    ) + seq![44u8] + fld_int(("\"a\":").spec_bytes(), m.a as int) + seq![44u8] + fld_int(
        ("\"b\":").spec_bytes(),
        m.b as int,
    ) + seq![44u8] + fld_int(("\"c\":").spec_bytes(), m.c as int) + seq![44u8] + fld_int(
        ("\"d\":").spec_bytes(),
        m.d as int,
    ) + seq![125u8]
}

/// The normalized order a document denotes, if it is one.
pub open spec fn spec_parse_normalized(b: Seq<u8>) -> Option<OrderDetailPayloadModel> {
    match spec_take_byte(b, 0, 123) {
        None => None,
        Some(i0) => match spec_parse_str_field(b, i0, ("\"location\":\"").spec_bytes()) {
            None => None,
            Some((loc, i1)) => match spec_parse_i64_field(b, i1, (",\"timestamp\":").spec_bytes()) {
                None => None,
                Some((ts, i2)) => match spec_take_byte(b, i2, 44) {
                    None => None,
                    Some(i3) => match spec_parse_str_field(b, i3, ("\"signature\":\"").spec_bytes()) {
                        None => None,
                        Some((sig, i4)) => match spec_parse_i32_field(b, i4, (",\"material\":").spec_bytes()) {
                            None => None,
                            Some((mat, i5)) => match spec_take_byte(b, i5, 44) {
                                None => None,
                                Some(i6) => match spec_parse_i32_field(b, i6, ("\"a\":").spec_bytes()) {
                                    None => None,
                                    Some((va, i7)) => match spec_take_byte(b, i7, 44) {
                                        None => None,
                                        Some(i8) => match spec_parse_i32_field(b, i8, ("\"b\":").spec_bytes()) {
                                            None => None,
                                            Some((vb, i9)) => match spec_take_byte(b, i9, 44) {
                                                None => None,
                                                Some(i10) => match spec_parse_i32_field(b, i10, ("\"c\":").spec_bytes()) {
                                                    None => None,
                                                    Some((vc, i11)) => match spec_take_byte(b, i11, 44) {
                                                        None => None,
                                                        Some(i12) => match spec_parse_i32_field(b, i12, ("\"d\":").spec_bytes()) {
                                                            None => None,
                                                            Some((vd, i13)) => match spec_take_byte(b, i13, 125) {
                                                                None => None,
                                                                Some(i14) => if i14 == b.len() {
                                                                    Some(
                                                                        OrderDetailPayloadModel {
                                                                            location: loc,
                                                                            timestamp: ts,
                                                                            signature: sig,
                                                                            material: mat,
                                                                            a: va,
                                                                            b: vb,
                                                                            c: vc,
                                                                            d: vd,
                                                                        },
                                                                    )
                                                                } else {
                                                                    None
                                                                },
                                                            },
                                                        },
                                                    },
                                                },
                                            },
                                        },
                                    },
                                },
                            },
                        },
                    },
                },
            },
        },
    }
}

/// Encodes a normalized order for a persist subject.
#[verifier::rlimit(100)]
pub fn encode_normalized(n: &OrderDetailPayload) -> (r: Vec<u8>)
    ensures
        r@ == spec_encode_normalized(n@),
{
    let mut out: Vec<u8> = Vec::new();
    out.push(123);
    push_str_field(&mut out, "\"location\":\"", n.location.as_str());
    push_i64_field(&mut out, ",\"timestamp\":", n.timestamp);
    out.push(44);
    push_str_field(&mut out, "\"signature\":\"", n.signature.as_str());
    push_i64_field(&mut out, ",\"material\":", n.material as i64);
    out.push(44);
    push_i64_field(&mut out, "\"a\":", n.a as i64);
    out.push(44);
    push_i64_field(&mut out, "\"b\":", n.b as i64);
    out.push(44);
    push_i64_field(&mut out, "\"c\":", n.c as i64);
    out.push(44);
    push_i64_field(&mut out, "\"d\":", n.d as i64);
    out.push(125);
    proof {
        assert(out@ =~= spec_encode_normalized(n@));
    }
    out
}

/// Decodes a normalized order, or nothing if the bytes are malformed.
pub fn parse_normalized(b: &[u8]) -> (r: Option<OrderDetailPayload>)
    ensures
        match r {
            Some(n) => spec_parse_normalized(b@) == Some(n@),
            None => spec_parse_normalized(b@) is None,
        },
{
    let i0 = match expect_byte(b, 0, 123) {
        Some(j) => j,
        None => {
            return None;
        },
    };
    let (loc, i1) = match parse_str_field(b, i0, "\"location\":\"") {
        Some(x) => x,
        None => {
            return None;
        },
    };
    let (ts, i2) = match parse_i64_field(b, i1, ",\"timestamp\":") {
        Some(x) => x,
        None => {
            return None;
        },
    };
    let i3 = match expect_byte(b, i2, 44) {
        Some(j) => j,
        None => {
            return None;
        },
    };
    let (sig, i4) = match parse_str_field(b, i3, "\"signature\":\"") {
        Some(x) => x,
        None => {
            return None;
        },
    };
    let (mat, i5) = match parse_i32_field(b, i4, ",\"material\":") {
        Some(x) => x,
        None => {
            return None;
        },
    };
    let i6 = match expect_byte(b, i5, 44) {
        Some(j) => j,
        None => {
            return None;
        },
    };
    let (va, i7) = match parse_i32_field(b, i6, "\"a\":") {
        Some(x) => x,
        None => {
            return None;
        },
    };
    let i8 = match expect_byte(b, i7, 44) {
        Some(j) => j,
        None => {
            return None;
        },
    };
    let (vb, i9) = match parse_i32_field(b, i8, "\"b\":") {
        Some(x) => x,
        None => {
            return None;
        },
    };
    let i10 = match expect_byte(b, i9, 44) {
        Some(j) => j,
        None => {
            return None;
        },
    };
    let (vc, i11) = match parse_i32_field(b, i10, "\"c\":") {
        Some(x) => x,
        None => {
            return None;
        },
    };
    let i12 = match expect_byte(b, i11, 44) {
        Some(j) => j,
        None => {
            return None;
        },
    };
    let (vd, i13) = match parse_i32_field(b, i12, "\"d\":") {
        Some(x) => x,
        None => {
            return None;
        },
    };
    let i14 = match expect_byte(b, i13, 125) {
        Some(j) => j,
        None => {
            return None;
        },
    };
    if i14 != b.len() {
        return None;
    }
    Some(
        OrderDetailPayload {
            location: loc,
            timestamp: ts,
            signature: sig,
            material: mat,
            a: va,
            b: vb,
            c: vc,
            d: vd,
        },
    )
}

/// Parsing the encoding of a normalized order gives the order back.
#[verifier::rlimit(100)]
pub proof fn lemma_normalized_round_trip(m: OrderDetailPayloadModel)
    ensures
        spec_parse_normalized(spec_encode_normalized(m)) == Some(m),
{
    let b = spec_encode_normalized(m);
    let l1 = ("\"location\":\"").spec_bytes();
    let l2 = (",\"timestamp\":").spec_bytes();
    let l3 = ("\"signature\":\"").spec_bytes();
    let l4 = (",\"material\":").spec_bytes();
    let la = ("\"a\":").spec_bytes();
    let lb = ("\"b\":").spec_bytes();
    let lc = ("\"c\":").spec_bytes();
    let ld = ("\"d\":").spec_bytes();
    let (i0, i1, i2, i3, i4, i5, i6, i7, i8, i9, i10, i11, i12, i13) = norm_offs(m);
    lemma_normalized_layout(m);
    lemma_str_field_rt(b, i0, l1, m.location);
    assert(spec_parse_str_field(b, i0, l1) == Some((m.location, i1)));
    lemma_i64_field_rt(b, i1, l2, m.timestamp);
    assert(spec_parse_i64_field(b, i1, l2) == Some((m.timestamp, i2)));
    lemma_str_field_rt(b, i3, l3, m.signature);
    assert(spec_parse_str_field(b, i3, l3) == Some((m.signature, i4)));
    lemma_i32_field_rt(b, i4, l4, m.material);
    assert(spec_parse_i32_field(b, i4, l4) == Some((m.material, i5)));
    lemma_i32_field_rt(b, i6, la, m.a);
    assert(spec_parse_i32_field(b, i6, la) == Some((m.a, i7)));
    lemma_i32_field_rt(b, i8, lb, m.b);
    assert(spec_parse_i32_field(b, i8, lb) == Some((m.b, i9)));
    lemma_i32_field_rt(b, i10, lc, m.c);
    assert(spec_parse_i32_field(b, i10, lc) == Some((m.c, i11)));
    lemma_i32_field_rt(b, i12, ld, m.d);
    assert(spec_parse_i32_field(b, i12, ld) == Some((m.d, i13)));
    assert(spec_parse_normalized(b) == Some(m));
}

/// The offsets at which each piece of an encoded normalized order begins or
/// ends.
pub open spec fn norm_offs(m: OrderDetailPayloadModel) -> (
    int,
    int,
    int,
    int,
    int,
    int,
    int,
    int,
    int,
    int,
    int,
    int,
    int,
    int,
) {
    let i0 = 1int;
    let i1 = i0 + fld_str(("\"location\":\"").spec_bytes(), m.location).len();
    let i2 = i1 + fld_int((",\"timestamp\":").spec_bytes(), m.timestamp as int).len();
    let i3 = i2 + 1;
    let i4 = i3 + fld_str(("\"signature\":\"").spec_bytes(), m.signature).len();
    let i5 = i4 + fld_int((",\"material\":").spec_bytes(), m.material as int).len();
    let i6 = i5 + 1;
    let i7 = i6 + fld_int(("\"a\":").spec_bytes(), m.a as int).len();
    let i8 = i7 + 1;
    let i9 = i8 + fld_int(("\"b\":").spec_bytes(), m.b as int).len();
    let i10 = i9 + 1;
    let i11 = i10 + fld_int(("\"c\":").spec_bytes(), m.c as int).len();
    let i12 = i11 + 1;
    let i13 = i12 + fld_int(("\"d\":").spec_bytes(), m.d as int).len();
    (i0, i1, i2, i3, i4, i5, i6, i7, i8, i9, i10, i11, i12, i13)
}

/// Where every piece of an encoded normalized order stands in the document.
proof fn lemma_normalized_layout(m: OrderDetailPayloadModel)
    ensures
        ({
            let b = spec_encode_normalized(m);
            let (i0, i1, i2, i3, i4, i5, i6, i7, i8, i9, i10, i11, i12, i13) = norm_offs(m);
            &&& b.len() == i13 + 1
            &&& b[0] == 123
            &&& b.subrange(i0, i1) == fld_str(("\"location\":\"").spec_bytes(), m.location)
            &&& b.subrange(i1, i2) == fld_int((",\"timestamp\":").spec_bytes(), m.timestamp as int)
            &&& b[i2] == 44
            &&& b.subrange(i3, i4) == fld_str(("\"signature\":\"").spec_bytes(), m.signature)
            &&& b.subrange(i4, i5) == fld_int((",\"material\":").spec_bytes(), m.material as int)
            &&& b[i5] == 44
            &&& b.subrange(i6, i7) == fld_int(("\"a\":").spec_bytes(), m.a as int)
            &&& b[i7] == 44
            &&& b.subrange(i8, i9) == fld_int(("\"b\":").spec_bytes(), m.b as int)
            &&& b[i9] == 44
            &&& b.subrange(i10, i11) == fld_int(("\"c\":").spec_bytes(), m.c as int)
            &&& b[i11] == 44
            &&& b.subrange(i12, i13) == fld_int(("\"d\":").spec_bytes(), m.d as int)
            &&& b[i13] == 125
        }),
{
    let b = spec_encode_normalized(m);
    let l1 = ("\"location\":\"").spec_bytes();
    let l2 = (",\"timestamp\":").spec_bytes();
    let l3 = ("\"signature\":\"").spec_bytes();
    let l4 = (",\"material\":").spec_bytes();
    let la = ("\"a\":").spec_bytes();
    let lb = ("\"b\":").spec_bytes();
    let lc = ("\"c\":").spec_bytes();
    let ld = ("\"d\":").spec_bytes();
    let f1 = fld_str(l1, m.location);
    let f2 = fld_int(l2, m.timestamp as int);
    let f3 = fld_str(l3, m.signature);
    let f4 = fld_int(l4, m.material as int);
    let fa = fld_int(la, m.a as int);
    let fb = fld_int(lb, m.b as int);
    let fc = fld_int(lc, m.c as int);
    let fd = fld_int(ld, m.d as int);
    let comma = seq![44u8];
    let (i0, i1, i2, i3, i4, i5, i6, i7, i8, i9, i10, i11, i12, i13) = norm_offs(m);
    assert(b.len() == i13 + 1);
    let p13 = seq![123u8] + f1 + f2 + comma + f3 + f4 + comma + fa + comma + fb + comma + fc
        + comma + fd;
    let p12 = seq![123u8] + f1 + f2 + comma + f3 + f4 + comma + fa + comma + fb + comma + fc
        + comma;
    let p11 = seq![123u8] + f1 + f2 + comma + f3 + f4 + comma + fa + comma + fb + comma + fc;
    let p10 = seq![123u8] + f1 + f2 + comma + f3 + f4 + comma + fa + comma + fb + comma;
    let p9 = seq![123u8] + f1 + f2 + comma + f3 + f4 + comma + fa + comma + fb;
    let p8 = seq![123u8] + f1 + f2 + comma + f3 + f4 + comma + fa + comma;
    let p7 = seq![123u8] + f1 + f2 + comma + f3 + f4 + comma + fa;
    let p6 = seq![123u8] + f1 + f2 + comma + f3 + f4 + comma;
    let p5 = seq![123u8] + f1 + f2 + comma + f3 + f4;
    let p4 = seq![123u8] + f1 + f2 + comma + f3;
    let p3 = seq![123u8] + f1 + f2 + comma;
    let p2 = seq![123u8] + f1 + f2;
    let p1 = seq![123u8] + f1;
    let p0 = seq![123u8];
    assert(b.subrange(0, b.len() as int) =~= b);
    lemma_split_head(b, 0, p13, seq![125u8]);
    lemma_split_head(b, 0, p12, fd);
    lemma_split_head(b, 0, p11, comma);
    lemma_split_head(b, 0, p10, fc);
    lemma_split_head(b, 0, p9, comma);
    lemma_split_head(b, 0, p8, fb);
    lemma_split_head(b, 0, p7, comma);
    lemma_split_head(b, 0, p6, fa);
    lemma_split_head(b, 0, p5, comma);
    lemma_split_head(b, 0, p4, f4);
    lemma_split_head(b, 0, p3, f3);
    lemma_split_head(b, 0, p2, comma);
    lemma_split_head(b, 0, p1, f2);
    lemma_split_head(b, 0, p0, f1);
    assert(b[0] == b.subrange(0, 1)[0]);
    assert(b[i2] == b.subrange(i2, i3)[0]);
    assert(b[i5] == b.subrange(i5, i6)[0]);
    assert(b[i7] == b.subrange(i7, i8)[0]);
    assert(b[i9] == b.subrange(i9, i10)[0]);
    assert(b[i11] == b.subrange(i11, i12)[0]);
    assert(b[i13] == b.subrange(i13, i13 + 1)[0]);
}


// ---------------------------------------------------------------------------
// Messages: record and reply
// ---------------------------------------------------------------------------
/// The canonical document of one read-projection record.
pub open spec fn spec_encode_record(m: OrderRecordModel) -> Seq<u8> {
    seq![123u8] + fld_str(("\"location\":\"").spec_bytes(), m.location) + fld_str(
        (",\"timestamp\":\"").spec_bytes(),
        m.timestamp,
    ) + fld_str((",\"signature\":\"").spec_bytes(), m.signature) + fld_int(
        (",\"material\":").spec_bytes(),
        m.material as int,
    ) + seq![44u8] + fld_int(("\"a\":").spec_bytes(), m.a as int) + seq![44u8] + fld_int(
        ("\"b\":").spec_bytes(),
        m.b as int,
    ) + seq![44u8] + fld_int(("\"c\":").spec_bytes(), m.c as int) + seq![44u8] + fld_int(
        ("\"d\":").spec_bytes(),
        m.d as int,
    ) + seq![125u8]
}

/// The record a document denotes at position `i`, and the position just past
/// it.
pub open spec fn spec_parse_record_at(b: Seq<u8>, i: int) -> Option<(OrderRecordModel, int)> {
    match spec_take_byte(b, i, 123) {
        None => None,
        Some(i0) => match spec_parse_str_field(b, i0, ("\"location\":\"").spec_bytes()) {
            None => None,
            Some((loc, i1)) => match spec_parse_str_field(b, i1, (",\"timestamp\":\"").spec_bytes()) {
                None => None,
                Some((ts, i2)) => match spec_parse_str_field(b, i2, (",\"signature\":\"").spec_bytes()) {
                    None => None,
                    Some((sig, i3)) => match spec_parse_i32_field(b, i3, (",\"material\":").spec_bytes()) {
                        None => None,
                        Some((mat, i4)) => match spec_take_byte(b, i4, 44) {
                            None => None,
                            Some(i5) => match spec_parse_i32_field(b, i5, ("\"a\":").spec_bytes()) {
                                None => None,
                                Some((va, i6)) => match spec_take_byte(b, i6, 44) {
                                    None => None,
                                    Some(i7) => match spec_parse_i32_field(b, i7, ("\"b\":").spec_bytes()) {
                                        None => None,
                                        Some((vb, i8)) => match spec_take_byte(b, i8, 44) {
                                            None => None,
                                            Some(i9) => match spec_parse_i32_field(b, i9, ("\"c\":").spec_bytes()) {
                                                None => None,
                                                Some((vc, i10)) => match spec_take_byte(b, i10, 44) {
                                                    None => None,
                                                    Some(i11) => match spec_parse_i32_field(b, i11, ("\"d\":").spec_bytes()) {
                                                        None => None,
                                                        Some((vd, i12)) => match spec_take_byte(b, i12, 125) {
                                                            None => None,
                                                            Some(i13) => Some(
                                                                (
                                                                    OrderRecordModel {
                                                                        location: loc,
                                                                        timestamp: ts,
                                                                        signature: sig,
                                                                        material: mat,
                                                                        a: va,
                                                                        b: vb,
                                                                        c: vc,
                                                                        d: vd,
                                                                    },
                                                                    i13,
                                                                ),
                                                            ),
                                                        },
                                                    },
                                                },
                                            },
                                        },
                                    },
                                },
                            },
                        },
                    },
                },
            },
        },
    }
}

/// Appends the encoding of one record to `out`.
#[verifier::rlimit(100)]
fn encode_record_into(out: &mut Vec<u8>, r: &OrderRecord)
    ensures
        final(out)@ == old(out)@ + spec_encode_record(r@),
{
    out.push(123);
    push_str_field(out, "\"location\":\"", r.location.as_str());
    push_str_field(out, ",\"timestamp\":\"", r.timestamp.as_str());
    push_str_field(out, ",\"signature\":\"", r.signature.as_str());
    push_i64_field(out, ",\"material\":", r.material as i64);
    out.push(44);
    push_i64_field(out, "\"a\":", r.a as i64);
    out.push(44);
    push_i64_field(out, "\"b\":", r.b as i64);
    out.push(44);
    push_i64_field(out, "\"c\":", r.c as i64);
    out.push(44);
    push_i64_field(out, "\"d\":", r.d as i64);
    out.push(125);
    proof {
        assert(out@ =~= old(out)@ + spec_encode_record(r@));
    }
}

/// Decodes one record at position `i`.
fn parse_record_at(b: &[u8], i: usize) -> (r: Option<(OrderRecord, usize)>)
    requires
        i <= b@.len(),
    ensures
        match r {
            Some((rec, j)) => spec_parse_record_at(b@, i as int) == Some((rec@, j as int)) && i < j
                <= b@.len(),
            None => spec_parse_record_at(b@, i as int) is None,
        },
{
    let i0 = match expect_byte(b, i, 123) {
        Some(j) => j,
        None => {
            return None;
        },
    };
    let (loc, i1) = match parse_str_field(b, i0, "\"location\":\"") {
        Some(x) => x,
        None => {
            return None;
        },
    };
    let (ts, i2) = match parse_str_field(b, i1, ",\"timestamp\":\"") {
        Some(x) => x,
        None => {
            return None;
        },
    };
    let (sig, i3) = match parse_str_field(b, i2, ",\"signature\":\"") {
        Some(x) => x,
        None => {
            return None;
        },
    };
    let (mat, i4) = match parse_i32_field(b, i3, ",\"material\":") {
        Some(x) => x,
        None => {
            return None;
        },
    };
    let i5 = match expect_byte(b, i4, 44) {
        Some(j) => j,
        None => {
            return None;
        },
    };
    let (va, i6) = match parse_i32_field(b, i5, "\"a\":") {
        Some(x) => x,
        None => {
            return None;
        },
    };
    let i7 = match expect_byte(b, i6, 44) {
        Some(j) => j,
        None => {
            return None;
        },
    };
    let (vb, i8) = match parse_i32_field(b, i7, "\"b\":") {
        Some(x) => x,
        None => {
            return None;
        },
    };
    let i9 = match expect_byte(b, i8, 44) {
        Some(j) => j,
        None => {
            return None;
        },
    };
    let (vc, i10) = match parse_i32_field(b, i9, "\"c\":") {
        Some(x) => x,
        None => {
            return None;
        },
    };
    let i11 = match expect_byte(b, i10, 44) {
        Some(j) => j,
        None => {
            return None;
        },
    };
    let (vd, i12) = match parse_i32_field(b, i11, "\"d\":") {
        Some(x) => x,
        None => {
            return None;
        },
    };
    let i13 = match expect_byte(b, i12, 125) {
        Some(j) => j,
        None => {
            return None;
        },
    };
    Some(
        (
            OrderRecord {
                location: loc,
                timestamp: ts,
                signature: sig,
                material: mat,
                a: va,
                b: vb,
                c: vc,
                d: vd,
            },
            i13,
        ),
    )
}

/// Parsing the encoding of one record at its own offset gives it back.
#[verifier::rlimit(100)]
pub proof fn lemma_record_rt_at(b: Seq<u8>, i: int, m: OrderRecordModel)
    requires
        0 <= i,
        i + spec_encode_record(m).len() <= b.len(),
        b.subrange(i, i + spec_encode_record(m).len()) == spec_encode_record(m),
    ensures
        spec_parse_record_at(b, i) == Some((m, i + spec_encode_record(m).len())),
{
    let er = spec_encode_record(m);
    let sub = b.subrange(i, i + er.len());
    let l1 = ("\"location\":\"").spec_bytes();
    let l2 = (",\"timestamp\":\"").spec_bytes();
    let l3 = (",\"signature\":\"").spec_bytes();
    let l4 = (",\"material\":").spec_bytes();
    let la = ("\"a\":").spec_bytes();
    let lb = ("\"b\":").spec_bytes();
    let lc = ("\"c\":").spec_bytes();
    let ld = ("\"d\":").spec_bytes();
    let f1 = fld_str(l1, m.location);
    let f2 = fld_str(l2, m.timestamp);
    let f3 = fld_str(l3, m.signature);
    let f4 = fld_int(l4, m.material as int);
    let fa = fld_int(la, m.a as int);
    let fb = fld_int(lb, m.b as int);
    let fc = fld_int(lc, m.c as int);
    let fd = fld_int(ld, m.d as int);
    let i0 = i + 1;
    let i1 = i0 + f1.len();
    let i2 = i1 + f2.len();
    let i3 = i2 + f3.len();
    let i4 = i3 + f4.len();
    let i5 = i4 + 1;
    let i6 = i5 + fa.len();
    let i7 = i6 + 1;
    let i8 = i7 + fb.len();
    let i9 = i8 + 1;
    let i10 = i9 + fc.len();
    let i11 = i10 + 1;
    let i12 = i11 + fd.len();
    assert(er.len() == i12 + 1 - i);
    assert(b[i] == sub[0]);
    assert(er[0] == 123);
    assert(b[i] == 123);
    assert(b.subrange(i0, i1) =~= f1) by {
        assert forall|k: int| 0 <= k < f1.len() implies b.subrange(i0, i1)[k] == f1[k] by {
            assert(b.subrange(i0, i1)[k] == b[i0 + k]);
            assert(b[i0 + k] == sub[i0 - i + k]);
            assert(sub[i0 - i + k] == er[i0 - i + k]);
        }
    }
    lemma_str_field_rt(b, i0, l1, m.location);
    assert(b.subrange(i1, i2) =~= f2) by {
        assert forall|k: int| 0 <= k < f2.len() implies b.subrange(i1, i2)[k] == f2[k] by {
            assert(b.subrange(i1, i2)[k] == b[i1 + k]);
            assert(b[i1 + k] == sub[i1 - i + k]);
            assert(sub[i1 - i + k] == er[i1 - i + k]);
        }
    }
    lemma_str_field_rt(b, i1, l2, m.timestamp);
    assert(b.subrange(i2, i3) =~= f3) by {
        assert forall|k: int| 0 <= k < f3.len() implies b.subrange(i2, i3)[k] == f3[k] by {
            assert(b.subrange(i2, i3)[k] == b[i2 + k]);
            assert(b[i2 + k] == sub[i2 - i + k]);
            assert(sub[i2 - i + k] == er[i2 - i + k]);
        }
    }
    lemma_str_field_rt(b, i2, l3, m.signature);
    assert(b.subrange(i3, i4) =~= f4) by {
        assert forall|k: int| 0 <= k < f4.len() implies b.subrange(i3, i4)[k] == f4[k] by {
            assert(b.subrange(i3, i4)[k] == b[i3 + k]);
            assert(b[i3 + k] == sub[i3 - i + k]);
            assert(sub[i3 - i + k] == er[i3 - i + k]);
        }
    }
    assert(b[i4] == sub[i4 - i]);
    assert(b[i4] == 44);
    lemma_i32_field_rt(b, i3, l4, m.material);
    assert(b.subrange(i5, i6) =~= fa) by {
        assert forall|k: int| 0 <= k < fa.len() implies b.subrange(i5, i6)[k] == fa[k] by {
            assert(b.subrange(i5, i6)[k] == b[i5 + k]);
            assert(b[i5 + k] == sub[i5 - i + k]);
            assert(sub[i5 - i + k] == er[i5 - i + k]);
        }
    }
    assert(b[i6] == sub[i6 - i]);
    assert(b[i6] == 44);
    lemma_i32_field_rt(b, i5, la, m.a);
    assert(b.subrange(i7, i8) =~= fb) by {
        assert forall|k: int| 0 <= k < fb.len() implies b.subrange(i7, i8)[k] == fb[k] by {
            assert(b.subrange(i7, i8)[k] == b[i7 + k]);
            assert(b[i7 + k] == sub[i7 - i + k]);
            assert(sub[i7 - i + k] == er[i7 - i + k]);
        }
    }
    assert(b[i8] == sub[i8 - i]);
    assert(b[i8] == 44);
    lemma_i32_field_rt(b, i7, lb, m.b);
    assert(b.subrange(i9, i10) =~= fc) by {
        assert forall|k: int| 0 <= k < fc.len() implies b.subrange(i9, i10)[k] == fc[k] by {
            assert(b.subrange(i9, i10)[k] == b[i9 + k]);
            assert(b[i9 + k] == sub[i9 - i + k]);
            assert(sub[i9 - i + k] == er[i9 - i + k]);
        }
    }
    assert(b[i10] == sub[i10 - i]);
    assert(b[i10] == 44);
    lemma_i32_field_rt(b, i9, lc, m.c);
    assert(b.subrange(i11, i12) =~= fd) by {
        assert forall|k: int| 0 <= k < fd.len() implies b.subrange(i11, i12)[k] == fd[k] by {
            assert(b.subrange(i11, i12)[k] == b[i11 + k]);
            assert(b[i11 + k] == sub[i11 - i + k]);
            assert(sub[i11 - i + k] == er[i11 - i + k]);
        }
    }
    assert(b[i12] == sub[i12 - i]);
    assert(b[i12] == 125);
    lemma_i32_field_rt(b, i11, ld, m.d);
    assert(spec_parse_record_at(b, i) == Some((m, i12 + 1)));
}

/// A query reply: the record set the store returned, or an explicit error
/// sentinel, never a silently empty result in place of a failure.
#[derive(Debug, Clone)]
pub enum QueryReply {
    Records(Vec<OrderRecord>),
    Failed,
}

/// What the mathematical model of a [`QueryReply`] holds.
pub enum QueryReplyModel {
    Records(Seq<OrderRecordModel>),
    Failed,
}

impl View for QueryReply {
    type V = QueryReplyModel;

    open spec fn view(&self) -> QueryReplyModel {
        match self {
            QueryReply::Records(v) => QueryReplyModel::Records(
                v@.map_values(|r: OrderRecord| r@),
            ),
            QueryReply::Failed => QueryReplyModel::Failed,
        }
    }
}

/// The items of a record array, separated by commas.
pub open spec fn spec_encode_records_items(rs: Seq<OrderRecordModel>) -> Seq<u8>
    decreases rs.len(),
{
    if rs.len() == 0 {
        Seq::empty()
    } else if rs.len() == 1 {
        spec_encode_record(rs[0])
    } else {
        spec_encode_record(rs[0]) + seq![44u8] + spec_encode_records_items(rs.skip(1))
    }
}

/// Appending one record to the items appends a separator and its encoding.
proof fn lemma_items_push(rs: Seq<OrderRecordModel>, x: OrderRecordModel)
    ensures
        spec_encode_records_items(rs.push(x)) == if rs.len() == 0 {
            spec_encode_record(x)
        } else {
            spec_encode_records_items(rs) + seq![44u8] + spec_encode_record(x)
        },
    decreases rs.len(),
{
    let whole = rs.push(x);
    if rs.len() == 0 {
        assert(whole.len() == 1);
        assert(whole[0] == x);
    } else {
        assert(whole[0] == rs[0]);
        assert(whole.skip(1) =~= rs.skip(1).push(x));
        lemma_items_push(rs.skip(1), x);
        if rs.len() == 1 {
            assert(rs.skip(1).len() == 0);
            assert(spec_encode_records_items(whole) == spec_encode_record(rs[0]) + seq![44u8]
                + spec_encode_record(x));
            assert(spec_encode_records_items(rs) == spec_encode_record(rs[0]));
        } else {
            assert(spec_encode_records_items(whole) == spec_encode_record(rs[0]) + seq![44u8] + (
            spec_encode_records_items(rs.skip(1)) + seq![44u8] + spec_encode_record(x)));
            assert(spec_encode_records_items(whole) =~= (spec_encode_record(rs[0]) + seq![44u8]
                + spec_encode_records_items(rs.skip(1))) + seq![44u8] + spec_encode_record(x));
        }
    }
}

/// The canonical document of a reply: a record array on success, the error
/// sentinel on failure.
pub open spec fn spec_encode_reply(m: QueryReplyModel) -> Seq<u8> {
    match m {
        QueryReplyModel::Records(rs) => seq![91u8] + spec_encode_records_items(rs) + seq![93u8],
        QueryReplyModel::Failed => seq![123u8] + ("\"error\":\"query\"}").spec_bytes(),
    }
}

/// Scans array items from position `i` up to the closing bracket.
pub open spec fn spec_scan_records(b: Seq<u8>, i: int) -> Option<(Seq<OrderRecordModel>, int)>
    decreases b.len() - i when 0 <= i <= b.len()
{
    if i == b.len() {
        None
    } else if b[i] == 93 {
        Some((Seq::empty(), i + 1))
    } else {
        match spec_parse_record_at(b, i) {
            None => None,
            Some((r, j)) => if i < j && j < b.len() {
                if b[j] == 93 {
                    Some((seq![r], j + 1))
                } else if b[j] == 44 {
                    match spec_scan_records(b, j + 1) {
                        Some((rs, k)) => Some((seq![r] + rs, k)),
                        None => None,
                    }
                } else {
                    None
                }
            } else {
                None
            },
        }
    }
}

/// A successful item scan consumes at least the closing bracket and never
/// runs past the input.
proof fn lemma_scan_records_bounds(b: Seq<u8>, i: int)
    requires
        0 <= i <= b.len(),
    ensures
        spec_scan_records(b, i) matches Some((rs, j)) ==> i < j <= b.len(),
    decreases b.len() - i,
{
    if i < b.len() && b[i] != 93 {
        match spec_parse_record_at(b, i) {
            None => {},
            Some((r, j)) => {
                if i < j && j < b.len() && b[j] == 44 {
                    lemma_scan_records_bounds(b, j + 1);
                }
            },
        }
    }
}

/// The reply a document denotes, if it is one.
pub open spec fn spec_parse_reply(b: Seq<u8>) -> Option<QueryReplyModel> {
    if b.len() > 0 && b[0] == 91 {
        match spec_scan_records(b, 1) {
            Some((rs, j)) => if j == b.len() {
                Some(QueryReplyModel::Records(rs))
            } else {
                None
            },
            None => None,
        }
    } else {
        match spec_take_byte(b, 0, 123) {
            Some(i0) => match spec_take_lit(b, i0, ("\"error\":\"query\"}").spec_bytes()) {
                Some(j) => if j == b.len() {
                    Some(QueryReplyModel::Failed)
                } else {
                    None
                },
                None => None,
            },
            None => None,
        }
    }
}

/// Encodes a reply for a reply subject.
#[verifier::rlimit(100)]
pub fn encode_reply(r: &QueryReply) -> (out: Vec<u8>)
    ensures
        out@ == spec_encode_reply(r@),
{
    match r {
        QueryReply::Records(v) => {
            let ghost models = v@.map_values(|rec: OrderRecord| rec@);
            let mut out: Vec<u8> = Vec::new();
            out.push(91);
            let mut k: usize = 0;
            while k < v.len()
                invariant
                    k <= v@.len(),
                    models == v@.map_values(|rec: OrderRecord| rec@),
                    k == 0 ==> out@ == seq![91u8],
                    k >= 1 ==> out@ == seq![91u8] + spec_encode_records_items(
                        models.take(k as int),
                    ),
                decreases v@.len() - k,
            {
                if k > 0 {
                    out.push(44);
                }
                encode_record_into(&mut out, &v[k]);
                proof {
                    assert(models.take(k as int).push(models[k as int]) =~= models.take(
                        k as int + 1,
                    ));
                    lemma_items_push(models.take(k as int), models[k as int]);
                    if k == 0 {
                        assert(out@ =~= seq![91u8] + spec_encode_records_items(
                            models.take(1),
                        ));
                    } else {
                        assert(out@ =~= seq![91u8] + spec_encode_records_items(
                            models.take(k as int + 1),
                        ));
                    }
                }
                k += 1;
            }
            out.push(93);
            proof {
                assert(models.take(models.len() as int) =~= models);
                assert(out@ =~= spec_encode_reply(QueryReplyModel::Records(models)));
            }
            out
        },
        QueryReply::Failed => {
            let mut out: Vec<u8> = Vec::new();
            out.push(123);
            push_lit(&mut out, "\"error\":\"query\"}");
            proof {
                assert(out@ =~= spec_encode_reply(QueryReplyModel::Failed));
            }
            out
        },
    }
}

/// Decodes a reply, or nothing if the bytes are malformed.
pub fn parse_reply(b: &[u8]) -> (r: Option<QueryReply>)
    ensures
        match r {
            Some(rep) => spec_parse_reply(b@) == Some(rep@),
            None => spec_parse_reply(b@) is None,
        },
{
    if b.len() > 0 && b[0] == 91 {
        let mut acc: Vec<OrderRecord> = Vec::new();
        let mut cur: usize = 1;
        proof {
            lemma_scan_records_bounds(b@, 1);
            match spec_scan_records(b@, 1) {
                Some((rs, j)) => {
                    assert(Seq::<OrderRecordModel>::empty() + rs =~= rs);
                    assert(acc@.map_values(|rec: OrderRecord| rec@)
                        =~= Seq::<OrderRecordModel>::empty());
                },
                None => {},
            }
        }
        loop
            invariant
                1 <= cur <= b@.len(),
                b@.len() > 0 && b@[0] == 91,
                match spec_scan_records(b@, cur as int) {
                    Some((rs, j)) => spec_scan_records(b@, 1) == Some(
                        (acc@.map_values(|rec: OrderRecord| rec@) + rs, j),
                    ) && cur < j <= b@.len(),
                    None => spec_scan_records(b@, 1) is None,
                },
            decreases b@.len() - cur,
        {
            if cur == b.len() {
                return None;
            }
            if b[cur] == 93 {
                if cur + 1 == b.len() {
                    proof {
                        assert(acc@.map_values(|rec: OrderRecord| rec@)
                            + Seq::<OrderRecordModel>::empty() =~= acc@.map_values(
                            |rec: OrderRecord| rec@,
                        ));
                    }
                    return Some(QueryReply::Records(acc));
                } else {
                    return None;
                }
            }
            match parse_record_at(b, cur) {
                None => {
                    return None;
                },
                Some((rec, j)) => {
                    if j < b.len() && b[j] == 93 {
                        if j + 1 == b.len() {
                            let ghost accm = acc@.map_values(|r0: OrderRecord| r0@);
                            acc.push(rec);
                            proof {
                                assert(acc@.map_values(|r0: OrderRecord| r0@) =~= accm
                                    + seq![rec@]);
                                assert(accm + seq![rec@] =~= accm + (seq![rec@]
                                    + Seq::<OrderRecordModel>::empty()));
                            }
                            return Some(QueryReply::Records(acc));
                        } else {
                            return None;
                        }
                    } else if j < b.len() && b[j] == 44 {
                        let ghost accm = acc@.map_values(|r0: OrderRecord| r0@);
                        proof {
                            lemma_scan_records_bounds(b@, j as int + 1);
                            match spec_scan_records(b@, j as int + 1) {
                                Some((rs, kk)) => {
                                    assert(accm + (seq![rec@] + rs) =~= (accm + seq![rec@])
                                        + rs);
                                },
                                None => {},
                            }
                        }
                        acc.push(rec);
                        proof {
                            assert(acc@.map_values(|r0: OrderRecord| r0@) =~= accm + seq![rec@]);
                        }
                        cur = j + 1;
                    } else {
                        return None;
                    }
                },
            }
        }
    } else {
        let i0 = match expect_byte(b, 0, 123) {
            Some(j) => j,
            None => {
                return None;
            },
        };
        let j = match expect_lit(b, i0, "\"error\":\"query\"}") {
            Some(j) => j,
            None => {
                return None;
            },
        };
        if j == b.len() {
            Some(QueryReply::Failed)
        } else {
            None
        }
    }
}

/// Scanning the items of a record list followed by the closing bracket
/// yields the list exactly.
#[verifier::rlimit(100)]
proof fn lemma_scan_records_rt(b: Seq<u8>, i: int, rs: Seq<OrderRecordModel>)
    requires
        0 <= i,
        i + spec_encode_records_items(rs).len() + 1 <= b.len(),
        b.subrange(i, i + spec_encode_records_items(rs).len() + 1) == spec_encode_records_items(rs)
            + seq![93u8],
    ensures
        spec_scan_records(b, i) == Some((rs, i + spec_encode_records_items(rs).len() + 1)),
    decreases rs.len(),
{
    let items = spec_encode_records_items(rs);
    let sub = b.subrange(i, i + items.len() + 1);
    assert forall|k: int| 0 <= k < items.len() + 1 implies b[i + k] == (items + seq![93u8])[k] by {
        assert(sub[k] == b[i + k]);
    }
    if rs.len() == 0 {
        assert(b[i] == sub[0]);
        assert(b[i] == 93);
        assert(spec_scan_records(b, i) == Some((Seq::<OrderRecordModel>::empty(), i + 1)));
        assert(Seq::<OrderRecordModel>::empty() =~= rs);
    } else {
        let er = spec_encode_record(rs[0]);
        if rs.len() == 1 {
            assert(items == er);
        } else {
            assert(items == er + seq![44u8] + spec_encode_records_items(rs.skip(1)));
        }
        assert(er[0] == 123);
        assert(b[i] == sub[0]);
        assert(b[i] == 123);
        assert(b.subrange(i, i + er.len()) =~= er) by {
            assert forall|k: int| 0 <= k < er.len() implies b.subrange(i, i + er.len())[k] == er[k]
                by {
                assert(b.subrange(i, i + er.len())[k] == b[i + k]);
                if rs.len() > 1 {
                    assert((er + seq![44u8] + spec_encode_records_items(rs.skip(1))
                        + seq![93u8])[k] == er[k]);
                }
            }
        }
        lemma_record_rt_at(b, i, rs[0]);
        let j = i + er.len();
        if rs.len() == 1 {
            assert(b[j] == sub[j - i]);
            assert(b[j] == 93);
            assert(spec_scan_records(b, i) == Some((seq![rs[0]], j + 1)));
            assert(seq![rs[0]] =~= rs);
        } else {
            assert(b[j] == sub[j - i]);
            assert(b[j] == 44);
            let rest = spec_encode_records_items(rs.skip(1));
            assert(b.subrange(j + 1, i + items.len() + 1) =~= rest + seq![93u8]) by {
                assert forall|k: int|
                    0 <= k < rest.len() + 1 implies b.subrange(j + 1, i + items.len() + 1)[k] == (
                rest + seq![93u8])[k] by {
                    assert(b.subrange(j + 1, i + items.len() + 1)[k] == b[j + 1 + k]);
                    assert((items + seq![93u8])[er.len() + 1 + k] == (rest + seq![93u8])[k]);
                }
            }
            lemma_scan_records_rt(b, j + 1, rs.skip(1));
            assert(seq![rs[0]] + rs.skip(1) =~= rs);
        }
    }
}

/// Parsing the encoding of a reply gives the reply back.
#[verifier::rlimit(100)]
pub proof fn lemma_reply_round_trip(m: QueryReplyModel)
    ensures
        spec_parse_reply(spec_encode_reply(m)) == Some(m),
{
    let b = spec_encode_reply(m);
    match m {
        QueryReplyModel::Records(rs) => {
            let items = spec_encode_records_items(rs);
            assert(b[0] == 91);
            assert(b.subrange(1, items.len() as int + 2) =~= items + seq![93u8]);
            lemma_scan_records_rt(b, 1, rs);
        },
        QueryReplyModel::Failed => {
            let l = ("\"error\":\"query\"}").spec_bytes();
            assert(b.len() == 1 + l.len());
            assert(b[0] == 123);
            assert(b[0] != 91);
            assert(b.subrange(1, l.len() as int + 1) =~= l);
            assert(spec_take_byte(b, 0, 123) == Some(1int));
            assert(spec_take_lit(b, 1, l) == Some(l.len() as int + 1));
        },
    }
}

} // verus!