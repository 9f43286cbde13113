use crate::types::ByteRange;
use vstd::arithmetic::div_mod::lemma_mod_breakdown;
use vstd::prelude::*;

verus! {

/// Why a copy was refused.
#[derive(Clone, Copy, Debug, PartialEq, Eq, Structural)]
pub enum CopyError {
    /// The destination holds fewer bytes than the source.
    DestinationTooShort,
}

/// Whether `b` is an ASCII hexadecimal digit, in either case.
pub open spec fn is_hex_digit(b: u8) -> bool {
    (0x30 <= b <= 0x39) || (0x41 <= b <= 0x46) || (0x61 <= b <= 0x66)
}

/// The number that the hexadecimal digit `b` stands for.
pub open spec fn hex_digit_value(b: u8) -> nat
    recommends
        is_hex_digit(b),
{
    if 0x30 <= b <= 0x39 {
        (b - 0x30) as nat
    } else if 0x41 <= b <= 0x46 {
        (b - 0x41 + 10) as nat
    } else {
        (b - 0x61 + 10) as nat
    }
}

/// Whether every byte of `s` is a hexadecimal digit.
pub open spec fn all_hex(s: Seq<u8>) -> bool {
    forall|i: int| 0 <= i < s.len() ==> is_hex_digit(#[trigger] s[i])
}

/// The number that the digits of `s` write in base 16, most significant
/// digit first.
pub open spec fn hex_value(s: Seq<u8>) -> nat
    decreases s.len(),
{
    if s.len() == 0 {
        0
    } else {
        16 * hex_value(s.drop_last()) + hex_digit_value(s.last())
    }
}

/// What parsing the field `s` gives: its value where every byte is a
/// hexadecimal digit and the value fits in 32 bits, nothing otherwise.
pub open spec fn parse_hex_spec(s: Seq<u8>) -> Option<u32> {
    if all_hex(s) && hex_value(s) <= u32::MAX {
        Some(hex_value(s) as u32)
    } else {
        None
    }
}

/// The upper-case ASCII digit for `d`.
pub open spec fn hex_digit_char(d: nat) -> u8
    recommends
        d < 16,
{
    if d < 10 {
        (0x30 + d) as u8
    } else {
        (0x41 + d - 10) as u8
    }
}

/// The `width` low hexadecimal digits of `v` in upper-case ASCII, most
/// significant digit first.
pub open spec fn hex_format(v: nat, width: nat) -> Seq<u8>
    decreases width,
{
    if width == 0 {
        Seq::empty()
    } else {
        hex_format(v / 16, (width - 1) as nat).push(hex_digit_char(v % 16))
    }
}

/// 16 to the power `n`.
pub open spec fn pow16(n: nat) -> nat
    decreases n,
{
    if n == 0 {
        1
    } else {
        16 * pow16((n - 1) as nat)
    }
}

/// A formatted number has `width` digits, all of them hexadecimal, and they
/// write `v` reduced modulo 16 to the power `width`.
pub proof fn lemma_hex_format_value(v: nat, width: nat)
    ensures
        hex_format(v, width).len() == width,
        all_hex(hex_format(v, width)),
        hex_value(hex_format(v, width)) == v % pow16(width),
    decreases width,
{
    if width == 0 {
    } else {
        let w = (width - 1) as nat;
        let head = hex_format(v / 16, w);
        let d = hex_digit_char(v % 16);
        let s = hex_format(v, width);
        lemma_hex_format_value(v / 16, w);
        assert(s == head.push(d));
        assert(s.drop_last() =~= head);
        assert(s.last() == d);
        assert(is_hex_digit(d));
        assert(hex_digit_value(d) == v % 16);
        assert forall|i: int| 0 <= i < s.len() implies is_hex_digit(#[trigger] s[i]) by {
            if i < head.len() {
                assert(s[i] == head[i]);
            }
        }
        let p = pow16(w);
        assert(p > 0) by {
            lemma_pow16_positive(w);
        }
        lemma_mod_breakdown(v as int, 16, p as int);
    }
}

/// Every power of 16 is positive.
pub proof fn lemma_pow16_positive(n: nat)
    ensures
        pow16(n) > 0,
    decreases n,
{
    if n > 0 {
        lemma_pow16_positive((n - 1) as nat);
    }
}

/// Parsing undoes formatting: the eight digits written for a 32-bit number
/// parse back to that number.
pub proof fn lemma_parse_hex_inverts_format(v: u32)
    ensures
        parse_hex_spec(hex_format(v as nat, 8)) == Some(v),
{
    lemma_hex_format_value(v as nat, 8);
    assert(pow16(8) == 0x1_0000_0000) by {
        reveal_with_fuel(pow16, 9);
    }
}

/// The value of a prefix never exceeds the value of the whole field.
pub proof fn lemma_hex_value_prefix(s: Seq<u8>, n: int)
    requires
        0 <= n <= s.len(),
    ensures
        hex_value(s.subrange(0, n)) <= hex_value(s),
    decreases s.len(),
{
    if n == s.len() {
        assert(s.subrange(0, n) =~= s);
    } else {
        lemma_hex_value_prefix(s.drop_last(), n);
        assert(s.drop_last().subrange(0, n) =~= s.subrange(0, n));
    }
}

/// The number that the hexadecimal digit `b` stands for, or `None` where `b`
/// is no such digit.
pub fn hex_digit(b: u8) -> (r: Option<u8>)
    ensures
        r == (if is_hex_digit(b) {
            Some(hex_digit_value(b) as u8)
        } else {
            None
        }),
{
    if 0x30 <= b && b <= 0x39 {
        Some(b - 0x30)
    } else if 0x41 <= b && b <= 0x46 {
        Some(b - 0x41 + 10)
    } else if 0x61 <= b && b <= 0x66 {
        Some(b - 0x61 + 10)
    } else {
        None
    }
}

/// Parses a field of ASCII hexadecimal digits, of any width, to a 32-bit
/// number. Fails where a byte is not a hexadecimal digit or the number does
/// not fit.
pub fn parse_hex(field: &ByteRange) -> (r: Option<u32>)
    ensures
        r == parse_hex_spec(field@),
{
    let bytes = field.as_slice();
    let n: usize = bytes.len();
    let mut acc: u64 = 0;
    let mut i: usize = 0;
    while i < n
        invariant
            bytes@ == field@,
            n == bytes@.len(),
            0 <= i <= n,
            acc == hex_value(bytes@.subrange(0, i as int)),
            acc <= u32::MAX,
            all_hex(bytes@.subrange(0, i as int)),
        decreases n - i,
    {
        let ghost before = bytes@.subrange(0, i as int);
        let ghost after = bytes@.subrange(0, i + 1);
        proof {
            assert(after.drop_last() =~= before);
            assert(after.last() == bytes@[i as int]);
        }
        match hex_digit(bytes[i]) {
            None => {
                return None;
            },
            Some(d) => {
                let next: u64 = acc * 16 + d as u64;
                if next > u32::MAX as u64 {
                    proof {
                        lemma_hex_value_prefix(bytes@, i + 1);
                    }
                    return None;
                }
                proof {
                    assert forall|k: int| 0 <= k < after.len() implies is_hex_digit(
                        #[trigger] after[k],
                    ) by {
                        if k < i {
                            assert(after[k] == before[k]);
                        }
                    }
                }
                acc = next;
                i = i + 1;
            },
        }
    }
    proof {
        assert(bytes@.subrange(0, n as int) =~= bytes@);
    }
    Some(acc as u32)
}

/// Writes a 32-bit number as eight upper-case hexadecimal digits, the form in
/// which an archive header carries its fields.
pub fn format_hex(v: u32) -> (r: [u8; 8])
    ensures
        r@ == hex_format(v as nat, 8),
{
    let mut out: [u8; 8] = [0x30; 8];
    let mut rest: u32 = v;
    let mut i: usize = 8;
    while i > 0
        invariant
            0 <= i <= 8,
            out@.len() == 8,
            hex_format(v as nat, 8) =~= hex_format(rest as nat, i as nat) + out@.subrange(
                i as int,
                8,
            ),
        decreases i,
    {
        let d: u8 = (rest % 16) as u8;
        let c: u8 = if d < 10 {
            0x30 + d
        } else {
            0x41 + (d - 10)
        };
        i = i - 1;
        out[i] = c;
        proof {
            assert(c == hex_digit_char((rest % 16) as nat));
            assert(hex_format(rest as nat, (i + 1) as nat) == hex_format(
                (rest / 16) as nat,
                i as nat,
            ).push(c));
            assert(out@.subrange(i as int, 8) =~= seq![c] + out@.subrange(i + 1, 8));
        }
        rest = rest / 16;
    }
    proof {
        assert(hex_format(rest as nat, 0) =~= Seq::<u8>::empty());
        assert(out@.subrange(0, 8) =~= out@);
    }
    out
}

/// Whether the two ranges hold the same bytes.
pub fn bytes_equal(a: &ByteRange, b: &ByteRange) -> (r: bool)
    ensures
        r == (a@ == b@),
{
    let x = a.as_slice();
    let y = b.as_slice();
    if x.len() != y.len() {
        return false;
    }
    let n: usize = x.len();
    let mut i: usize = 0;
    while i < n
        invariant
            x@ == a@,
            y@ == b@,
            n == x@.len(),
            n == y@.len(),
            0 <= i <= n,
            forall|k: int| 0 <= k < i ==> x@[k] == y@[k],
        decreases n - i,
    {
        if x[i] != y[i] {
            return false;
        }
        i = i + 1;
    }
    proof {
        assert(x@ =~= y@);
    }
    true
}

/// Copies the bytes of `src` to the front of `dst`. Where `dst` is shorter
/// than `src` nothing is written and the copy is refused.
pub fn copy_bytes(dst: &mut [u8], src: &ByteRange) -> (r: Result<(), CopyError>)
    ensures
        r.is_ok() <==> src@.len() <= old(dst)@.len(),
        r.is_ok() ==> final(dst)@ == src@ + old(dst)@.subrange(
            src@.len() as int,
            old(dst)@.len() as int,
        ),
        r.is_err() ==> final(dst)@ == old(dst)@,
{
    let from = src.as_slice();
    let n: usize = from.len();
    if dst.len() < n {
        return Err(CopyError::DestinationTooShort);
    }
    let mut i: usize = 0;
    while i < n
        invariant
            from@ == src@,
            n == from@.len(),
            0 <= i <= n,
            dst@.len() == old(dst)@.len(),
            n <= dst@.len(),
            forall|k: int| 0 <= k < i ==> dst@[k] == from@[k],
            forall|k: int| i <= k < dst@.len() ==> dst@[k] == old(dst)@[k],
        decreases n - i,
    {
        dst[i] = from[i];
        i = i + 1;
    }
    proof {
        assert(dst@ =~= src@ + old(dst)@.subrange(src@.len() as int, old(dst)@.len() as int));
    }
    Ok(())
}

/// A defensive check: the caller shows that `cond` holds, and the program
/// halts if it is ever reached with `cond` false.
pub fn ensure(cond: bool)
    requires
        cond,
{
    vstd::pervasive::runtime_assert(cond);
}

} // verus!
