//! Text lines for disassembly listings: hexadecimal numbers and bytes, and
//! columns padded with spaces.
use crate::decoder::InsnView;
use vstd::prelude::*;
use vstd::string::*;

verus! {

/// The lowercase hexadecimal digit for `d < 16`.
pub open spec fn hex_char(d: nat) -> char {
    if d < 10 {
        (('0' as nat) + d) as char
    } else {
        (('a' as nat) + d - 10) as char
    }
}

/// The lowercase hexadecimal digits of `n`, without leading zeros (`0` for
/// zero).
pub open spec fn hex_digits(n: nat) -> Seq<char>
    decreases n,
{
    if n < 16 {
        seq![hex_char(n)]
    } else {
        hex_digits(n / 16).push(hex_char(n % 16))
    }
}

/// Two lowercase hexadecimal digits for a byte.
pub open spec fn hex_pair(b: u8) -> Seq<char> {
    seq![hex_char(b as nat / 16), hex_char(b as nat % 16)]
}

/// The bytes as two-digit hexadecimal pairs separated by single spaces.
pub open spec fn hex_bytes(bs: Seq<u8>) -> Seq<char>
    decreases bs.len(),
{
    if bs.len() == 0 {
        seq![]
    } else if bs.len() == 1 {
        hex_pair(bs[0])
    } else {
        hex_bytes(bs.drop_last()) + seq![' '] + hex_pair(bs.last())
    }
}

/// `s` followed by spaces up to `w` characters; longer text is kept whole.
pub open spec fn pad(s: Seq<char>, w: nat) -> Seq<char> {
    if s.len() < w {
        s + Seq::new((w - s.len()) as nat, |i: int| ' ')
    } else {
        s
    }
}

/// One listing line: address, raw bytes, mnemonic and operands in columns of
/// 10, 20 and 8 characters.
pub open spec fn listing_line(i: InsnView) -> Seq<char> {
    pad(seq!['0', 'x'] + hex_digits(i.address as nat), 10) + seq![' '] + pad(hex_bytes(i.bytes), 20) + seq![' ']
        + pad(i.mnemonic, 8) + seq![' '] + i.op_str
}

fn hex_digit_str(d: u8) -> (r: &'static str)
    requires
        d < 16,
    ensures
        r@ == seq![hex_char(d as nat)],
{
    proof {
        reveal_strlit("0");
        reveal_strlit("1");
        reveal_strlit("2");
        reveal_strlit("3");
        reveal_strlit("4");
        reveal_strlit("5");
        reveal_strlit("6");
        reveal_strlit("7");
        reveal_strlit("8");
        reveal_strlit("9");
        reveal_strlit("a");
        reveal_strlit("b");
        reveal_strlit("c");
        reveal_strlit("d");
        reveal_strlit("e");
        reveal_strlit("f");
    }
    let r = match d {
        0 => "0",
        1 => "1",
        2 => "2",
        3 => "3",
        4 => "4",
        5 => "5",
        6 => "6",
        7 => "7",
        8 => "8",
        9 => "9",
        10 => "a",
        11 => "b",
        12 => "c",
        13 => "d",
        14 => "e",
        _ => "f",
    };
    assert(r@ =~= seq![hex_char(d as nat)]);
    r
}

/// Appends the hexadecimal digits of `n`.
fn push_hex(out: &mut String, n: u64)
    ensures
        final(out)@ == old(out)@ + hex_digits(n as nat),
{
    let mut low: Vec<u8> = Vec::new();
    let mut cur: u64 = n;
    let ghost mut suffix: Seq<char> = seq![];
    while cur >= 16
        invariant
            hex_digits(n as nat) == hex_digits(cur as nat) + suffix,
            suffix.len() == low@.len(),
            forall|i: int| 0 <= i < low@.len() ==> low@[i] < 16,
            forall|i: int|
                0 <= i < low@.len() ==> suffix[i] == hex_char(#[trigger] low@[low@.len() - 1 - i] as nat),
        decreases cur,
    {
        let d = (cur % 16) as u8;
        let ghost old_low = low@;
        let ghost old_suffix = suffix;
        proof {
            suffix = seq![hex_char(d as nat)] + suffix;
            assert(hex_digits(cur as nat) == hex_digits((cur / 16) as nat).push(hex_char(d as nat)));
            assert(hex_digits((cur / 16) as nat) + suffix =~= hex_digits((cur / 16) as nat).push(
                hex_char(d as nat),
            ) + old_suffix);
        }
        low.push(d);
        cur = cur / 16;
        proof {
            assert(low@ == old_low.push(d));
            assert forall|i: int| 0 <= i < low@.len() implies suffix[i] == hex_char(
                #[trigger] low@[low@.len() - 1 - i] as nat,
            ) by {
                if i > 0 {
                    assert(suffix[i] == old_suffix[i - 1]);
                    assert(old_suffix[i - 1] == hex_char(old_low[old_low.len() - 1 - (i - 1)] as nat));
                    assert(low@[low@.len() - 1 - i] == old_low[old_low.len() - 1 - (i - 1)]);
                }
            }
        }
    }
    let ghost start = out@;
    out.append(hex_digit_str(cur as u8));
    let mut k: usize = low.len();
    while k > 0
        invariant
            k <= low@.len(),
            suffix.len() == low@.len(),
            forall|i: int| 0 <= i < low@.len() ==> low@[i] < 16,
            forall|i: int|
                0 <= i < low@.len() ==> suffix[i] == hex_char(#[trigger] low@[low@.len() - 1 - i] as nat),
            out@ == start + seq![hex_char(cur as nat)] + suffix.subrange(0, (low@.len() - k) as int),
        decreases k,
    {
        let ghost before = out@;
        out.append(hex_digit_str(low[k - 1]));
        proof {
            let j = (low@.len() - k) as int;
            assert(suffix[j] == hex_char(low@[low@.len() - 1 - j] as nat));
            assert(suffix.subrange(0, j + 1) =~= suffix.subrange(0, j).push(suffix[j]));
        }
        k = k - 1;
    }
    assert(suffix.subrange(0, suffix.len() as int) =~= suffix);
    assert(hex_digits(cur as nat) == seq![hex_char(cur as nat)]);
    assert(out@ =~= start + hex_digits(n as nat));
}

/// Appends the two hexadecimal digits of a byte.
fn push_hex_pair(out: &mut String, b: u8)
    ensures
        final(out)@ == old(out)@ + hex_pair(b),
{
    let ghost start = out@;
    out.append(hex_digit_str(b / 16));
    out.append(hex_digit_str(b % 16));
    assert(out@ =~= start + hex_pair(b));
}

/// Appends spaces until `out` has grown by `w` characters since it held
/// `start` characters.
fn pad_to(out: &mut String, start: usize, w: usize)
    requires
        start <= old(out)@.len(),
    ensures
        final(out)@ == old(out)@ + Seq::new(
            (if old(out)@.len() - start < w { w - (old(out)@.len() - start) } else { 0 }) as nat,
            |i: int| ' ',
        ),
{
    proof {
        reveal_strlit(" ");
    }
    let ghost base = out@;
    let used = out.as_str().unicode_len() - start;
    let need: usize = if used < w { w - used } else { 0 };
    let mut k: usize = 0;
    while k < need
        invariant
            k <= need,
            " "@ == seq![' '],
            out@ == base + Seq::new(k as nat, |i: int| ' '),
        decreases need - k,
    {
        out.append(" ");
        k = k + 1;
        assert(out@ =~= base + Seq::new(k as nat, |i: int| ' '));
    }
}

/// The listing line of a decoded instruction.
pub fn format_listing_line(address: u64, bytes: &[u8], mnemonic: &str, op_str: &str) -> (r: String)
    ensures
        r@ == pad(seq!['0', 'x'] + hex_digits(address as nat), 10) + seq![' '] + pad(hex_bytes(bytes@), 20)
            + seq![' '] + pad(mnemonic@, 8) + seq![' '] + op_str@,
{
    proof {
        reveal_strlit("0x");
        reveal_strlit(" ");
    }
    let mut out = String::from_str("0x");
    push_hex(&mut out, address);
    pad_to(&mut out, 0, 10);
    let ghost col1 = out@;
    assert(col1 =~= pad(seq!['0', 'x'] + hex_digits(address as nat), 10));
    out.append(" ");
    let start = out.as_str().unicode_len();
    let mut k: usize = 0;
    while k < bytes.len()
        invariant
            start == col1.len() + 1,
            " "@ == seq![' '],
            k <= bytes@.len(),
            out@ == col1 + seq![' '] + hex_bytes(bytes@.subrange(0, k as int)),
        decreases bytes@.len() - k,
    {
        let ghost before = out@;
        if k > 0 {
            out.append(" ");
        }
        push_hex_pair(&mut out, bytes[k]);
        proof {
            let s = bytes@.subrange(0, k + 1);
            assert(s.drop_last() =~= bytes@.subrange(0, k as int));
            if k == 0 {
                assert(hex_bytes(s) == hex_pair(s[0]));
                assert(hex_bytes(bytes@.subrange(0, 0)) =~= seq![]);
            } else {
                assert(hex_bytes(s) == hex_bytes(s.drop_last()) + seq![' '] + hex_pair(s.last()));
            }
            assert(s.last() == bytes@[k as int]);
        }
        k = k + 1;
        assert(out@ =~= col1 + seq![' '] + hex_bytes(bytes@.subrange(0, k as int)));
    }
    assert(bytes@.subrange(0, bytes@.len() as int) =~= bytes@);
    pad_to(&mut out, start, 20);
    let ghost col2 = out@;
    assert(col2 =~= col1 + seq![' '] + pad(hex_bytes(bytes@), 20));
    out.append(" ");
    let start = out.as_str().unicode_len();
    out.append(mnemonic);
    pad_to(&mut out, start, 8);
    assert(out@ =~= col2 + seq![' '] + pad(mnemonic@, 8));
    out.append(" ");
    out.append(op_str);
    out
}

} // verus!
