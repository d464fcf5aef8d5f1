//! Textual encodings of numbers.
//!
//! Snapshots encode every number as exactly sixteen lower-case hex
//! digits, most significant nibble first, so the decoder needs no
//! separators.  Durable-store keys carry the chat identifier in
//! decimal.

use vstd::prelude::*;

verus! {

/// The hex digit character of a nibble (`v < 16`).
pub open spec fn hex_digit(v: u64) -> char {
    if v == 0 { '0' } else if v == 1 { '1' } else if v == 2 { '2' }
    else if v == 3 { '3' } else if v == 4 { '4' } else if v == 5 { '5' }
    else if v == 6 { '6' } else if v == 7 { '7' } else if v == 8 { '8' }
    else if v == 9 { '9' } else if v == 10 { 'a' } else if v == 11 { 'b' }
    else if v == 12 { 'c' } else if v == 13 { 'd' } else if v == 14 { 'e' }
    else { 'f' }
}

/// The nibble of a hex digit character; 16 marks a non-digit.
pub open spec fn hex_val(c: char) -> u64 {
    if c == '0' { 0 } else if c == '1' { 1 } else if c == '2' { 2 }
    else if c == '3' { 3 } else if c == '4' { 4 } else if c == '5' { 5 }
    else if c == '6' { 6 } else if c == '7' { 7 } else if c == '8' { 8 }
    else if c == '9' { 9 } else if c == 'a' { 10 } else if c == 'b' { 11 }
    else if c == 'c' { 12 } else if c == 'd' { 13 } else if c == 'e' { 14 }
    else if c == 'f' { 15 } else { 16 }
}

/// The sixteen hex digits of `v`, most significant nibble first.
pub open spec fn hex16(v: u64) -> Seq<char> {
    Seq::new(16, |k: int| hex_digit((v >> ((60 - 4 * k) as u64)) & 0xf))
}

/// Every character is a hex digit.
pub open spec fn hex_seq_valid(s: Seq<char>) -> bool {
    forall|k: int| 0 <= k < s.len() ==> hex_val(s[k]) < 16
}

/// The value of a hex digit string, most significant first, truncated
/// to 64 bits.
pub open spec fn hex_acc(s: Seq<char>) -> u64
    decreases s.len(),
{
    if s.len() == 0 {
        0
    } else {
        (hex_acc(s.drop_last()) << 4) | hex_val(s.last())
    }
}

/// Reads sixteen hex digits back into the value they encode.
pub open spec fn parse_hex16(s: Seq<char>) -> Option<u64> {
    if s.len() == 16 && hex_seq_valid(s) {
        Some(hex_acc(s))
    } else {
        None
    }
}

/// A nibble's digit reads back as that nibble.
pub proof fn lemma_hex_digit_val(v: u64)
    requires
        v < 16,
    ensures
        hex_val(hex_digit(v)) == v,
{
}

proof fn lemma_hex16_prefix(v: u64, k: int)
    requires
        0 <= k <= 16,
    ensures
        hex_acc(hex16(v).take(k)) == (if k == 0 { 0u64 } else { v >> ((64 - 4 * k) as u64) }),
    decreases k,
{
    if k > 0 {
        lemma_hex16_prefix(v, k - 1);
        let s = hex16(v).take(k);
        assert(s.drop_last() =~= hex16(v).take(k - 1));
        assert(s.last() == hex_digit((v >> ((60 - 4 * (k - 1)) as u64)) & 0xf));
        let b = (64 - 4 * k) as u64;
        assert((v >> b) & 0xf < 16) by (bit_vector);
        lemma_hex_digit_val((v >> b) & 0xf);
        if k == 1 {
            assert((0u64 << 4) | ((v >> 60u64) & 0xf) == v >> 60u64) by (bit_vector);
        } else {
            let a = (64 - 4 * (k - 1)) as u64;
            assert(((v >> a) << 4) | ((v >> b) & 0xf) == v >> b) by (bit_vector)
                requires
                    a == b + 4 && b <= 56,
            ;
        }
    }
}

/// The sixteen-digit encoding reads back exactly.
pub proof fn lemma_hex16_round_trip(v: u64)
    ensures
        parse_hex16(hex16(v)) == Some(v),
{
    assert forall|k: int| 0 <= k < hex16(v).len() implies hex_val(hex16(v)[k]) < 16 by {
        let sh = (60 - 4 * k) as u64;
        assert((v >> sh) & 0xf < 16) by (bit_vector);
        lemma_hex_digit_val((v >> sh) & 0xf);
    }
    lemma_hex16_prefix(v, 16);
    assert(hex16(v).take(16) =~= hex16(v));
    assert(v >> 0u64 == v) by (bit_vector);
}

/// Exec form of `hex_digit`.
fn hex_digit_char(v: u64) -> (r: char)
    requires
        v < 16,
    ensures
        r == hex_digit(v),
{
    match v {
        0 => '0', 1 => '1', 2 => '2', 3 => '3', 4 => '4', 5 => '5',
        6 => '6', 7 => '7', 8 => '8', 9 => '9', 10 => 'a', 11 => 'b',
        12 => 'c', 13 => 'd', 14 => 'e', _ => 'f',
    }
}

/// Exec form of `hex_val`.
pub fn hex_val_of(c: char) -> (r: u64)
    ensures
        r == hex_val(c),
{
    match c {
        '0' => 0, '1' => 1, '2' => 2, '3' => 3, '4' => 4, '5' => 5,
        '6' => 6, '7' => 7, '8' => 8, '9' => 9, 'a' => 10, 'b' => 11,
        'c' => 12, 'd' => 13, 'e' => 14, 'f' => 15, _ => 16,
    }
}

/// Appends the sixteen hex digits of `v` to `out`.
pub fn push_hex16(out: &mut Vec<char>, v: u64)
    ensures
        final(out)@ == old(out)@ + hex16(v),
{
    let ghost base = out@;
    let mut k: usize = 0;
    while k < 16
        invariant
            k <= 16,
            out@ == base + hex16(v).take(k as int),
        decreases 16 - k,
    {
        let shift: u64 = 60 - 4 * (k as u64);
        let nib = (v >> shift) & 0xf;
        proof {
            assert((v >> shift) & 0xf < 16) by (bit_vector);
        }
        out.push(hex_digit_char(nib));
        proof {
            assert(hex16(v).take(k + 1).drop_last() =~= hex16(v).take(k as int));
            assert(out@ =~= base + hex16(v).take(k + 1));
        }
        k = k + 1;
    }
    proof {
        assert(hex16(v).take(16) =~= hex16(v));
    }
}

/// Reads sixteen hex digits of `cs` starting at `off`.
pub fn read_hex16(cs: &Vec<char>, off: usize) -> (r: Option<u64>)
    requires
        off + 16 <= cs@.len(),
        off + 16 <= usize::MAX,
    ensures
        r == parse_hex16(cs@.subrange(off as int, off + 16)),
{
    let s = Ghost(cs@.subrange(off as int, off + 16));
    let mut acc: u64 = 0;
    let mut k: usize = 0;
    while k < 16
        invariant
            k <= 16,
            off + 16 <= cs@.len(),
            off + 16 <= usize::MAX,
            s@ == cs@.subrange(off as int, off + 16),
            hex_seq_valid(s@.take(k as int)),
            acc == hex_acc(s@.take(k as int)),
        decreases 16 - k,
    {
        let v = hex_val_of(cs[off + k]);
        if v >= 16 {
            proof {
                assert(s@[k as int] == cs@[off + k]);
            }
            return None;
        }
        acc = (acc << 4u64) | v;
        proof {
            assert(s@.take(k + 1).drop_last() =~= s@.take(k as int));
            assert(s@.take(k + 1).last() == s@[k as int]);
            assert(s@[k as int] == cs@[off + k]);
        }
        k = k + 1;
    }
    proof {
        assert(s@.take(16) =~= s@);
    }
    Some(acc)
}

/// The decimal digit character of `v < 10`.
pub open spec fn dec_digit(v: u64) -> char {
    hex_digit(if v < 10 { v } else { 0 })
}

/// The decimal digits of `v`, most significant first, no sign and no
/// leading zero (except for zero itself).
pub open spec fn dec_u64(v: u64) -> Seq<char>
    decreases v,
{
    if v < 10 {
        seq![dec_digit(v)]
    } else {
        dec_u64(v / 10).push(dec_digit(v % 10))
    }
}

/// The decimal rendering of a signed chat identifier.
pub open spec fn dec_i64(v: i64) -> Seq<char> {
    if v < 0 {
        seq!['-'] + dec_u64((-(v as int)) as u64)
    } else {
        dec_u64(v as u64)
    }
}

/// Exec form of `dec_digit`.
fn dec_digit_char(v: u64) -> (r: char)
    requires
        v < 10,
    ensures
        r == dec_digit(v),
{
    hex_digit_char(v)
}

/// Appends the decimal digits of `v` to `out`.
pub fn push_dec_u64(out: &mut Vec<char>, v: u64)
    ensures
        final(out)@ == old(out)@ + dec_u64(v),
{
    let ghost base = out@;
    let mut tmp: Vec<char> = Vec::new();
    let mut x = v;
    if x == 0 {
        out.push('0');
        proof {
            assert(out@ =~= base + dec_u64(0));
        }
        return ;
    }
    while x > 0
        invariant
            x == 0 ==> dec_u64(v) =~= tmp@.reverse(),
            x > 0 ==> dec_u64(v) =~= dec_u64(x) + tmp@.reverse(),
        decreases x,
    {
        let d = x % 10;
        proof {
            let t2 = tmp@.push(dec_digit(d));
            assert(t2.reverse() =~= seq![dec_digit(d)] + tmp@.reverse());
            if x >= 10 {
                assert(dec_u64(x) =~= dec_u64(x / 10) + seq![dec_digit(x % 10)]);
                assert(dec_u64(x / 10) + t2.reverse() =~= dec_u64(x) + tmp@.reverse());
            } else {
                assert(dec_u64(x) =~= seq![dec_digit(x)]);
                assert(t2.reverse() =~= dec_u64(x) + tmp@.reverse());
            }
        }
        tmp.push(dec_digit_char(d));
        x = x / 10;
    }
    let mut k: usize = tmp.len();
    while k > 0
        invariant
            k <= tmp@.len(),
            out@ == base + tmp@.reverse().take(tmp@.len() - k),
        decreases k,
    {
        k = k - 1;
        out.push(tmp[k]);
        proof {
            let n = tmp@.len() as int;
            assert(tmp@.reverse().take(n - k)[n - k - 1] == tmp@.reverse()[n - k - 1]);
            assert(tmp@.reverse()[n - k - 1] == tmp@[k as int]);
            assert(out@ =~= base + tmp@.reverse().take(n - k));
        }
    }
    proof {
        assert(tmp@.reverse().take(tmp@.len() as int) =~= tmp@.reverse());
    }
}

/// Appends the decimal rendering of a signed value to `out`.
pub fn push_dec_i64(out: &mut Vec<char>, v: i64)
    ensures
        final(out)@ == old(out)@ + dec_i64(v),
{
    let ghost base = out@;
    if v < 0 {
        out.push('-');
        let mag: u64 = if v == i64::MIN {
            9223372036854775808u64
        } else {
            (-v) as u64
        };
        proof {
            assert(mag == (-(v as int)) as u64);
        }
        push_dec_u64(out, mag);
        proof {
            assert(out@ =~= base + dec_i64(v));
        }
    } else {
        push_dec_u64(out, v as u64);
    }
}

} // verus!
