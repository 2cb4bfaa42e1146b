//! Verified helpers for the string manipulation the compilers rely on:
//! equality, ASCII lower-casing, decimal rendering and hex rendering.

use vstd::prelude::*;

verus! {

/// Equality of two string slices, decided by their character sequences.
pub fn str_eq(a: &str, b: &str) -> (r: bool)
    ensures
        r == (a@ == b@),
{
    let x: String = a.to_owned();
    let y: String = b.to_owned();
    x == y
}

/// The lower-case form of one character: ASCII letters are folded,
/// every other character is left as it is.
pub open spec fn lower_char(c: char) -> char {
    if c == 'A' { 'a' } else if c == 'B' { 'b' } else if c == 'C' { 'c' }
    else if c == 'D' { 'd' } else if c == 'E' { 'e' } else if c == 'F' { 'f' }
    else if c == 'G' { 'g' } else if c == 'H' { 'h' } else if c == 'I' { 'i' }
    else if c == 'J' { 'j' } else if c == 'K' { 'k' } else if c == 'L' { 'l' }
    else if c == 'M' { 'm' } else if c == 'N' { 'n' } else if c == 'O' { 'o' }
    else if c == 'P' { 'p' } else if c == 'Q' { 'q' } else if c == 'R' { 'r' }
    else if c == 'S' { 's' } else if c == 'T' { 't' } else if c == 'U' { 'u' }
    else if c == 'V' { 'v' } else if c == 'W' { 'w' } else if c == 'X' { 'x' }
    else if c == 'Y' { 'y' } else if c == 'Z' { 'z' } else { c }
}

/// The lower-case form of a character sequence.
pub open spec fn lower_seq(s: Seq<char>) -> Seq<char> {
    Seq::new(s.len(), |i: int| lower_char(s[i]))
}

/// ASCII lower-casing of a string: the original's type names are folded
/// with `str::to_lowercase`, which agrees with this on ASCII input.
pub fn to_lower(s: &str) -> (r: String)
    ensures
        r@ == lower_seq(s@),
{
    let n = s.unicode_len();
    let mut r = String::new();
    let mut i: usize = 0;
    while i < n
        invariant
            i <= n,
            n == s@.len(),
            r@ == lower_seq(s@.subrange(0, i as int)),
        decreases n - i,
    {
        let c = s.get_char(i);
        match c {
            'A' => r.append("a"), 'B' => r.append("b"), 'C' => r.append("c"),
            'D' => r.append("d"), 'E' => r.append("e"), 'F' => r.append("f"),
            'G' => r.append("g"), 'H' => r.append("h"), 'I' => r.append("i"),
            'J' => r.append("j"), 'K' => r.append("k"), 'L' => r.append("l"),
            'M' => r.append("m"), 'N' => r.append("n"), 'O' => r.append("o"),
            'P' => r.append("p"), 'Q' => r.append("q"), 'R' => r.append("r"),
            'S' => r.append("s"), 'T' => r.append("t"), 'U' => r.append("u"),
            'V' => r.append("v"), 'W' => r.append("w"), 'X' => r.append("x"),
            'Y' => r.append("y"), 'Z' => r.append("z"),
            _ => {
                let piece = s.substring_char(i, i + 1);
                r.append(piece);
            },
        }
        proof {
            reveal_strlit("a"); reveal_strlit("b"); reveal_strlit("c");
            reveal_strlit("d"); reveal_strlit("e"); reveal_strlit("f");
            reveal_strlit("g"); reveal_strlit("h"); reveal_strlit("i");
            reveal_strlit("j"); reveal_strlit("k"); reveal_strlit("l");
            reveal_strlit("m"); reveal_strlit("n"); reveal_strlit("o");
            reveal_strlit("p"); reveal_strlit("q"); reveal_strlit("r");
            reveal_strlit("s"); reveal_strlit("t"); reveal_strlit("u");
            reveal_strlit("v"); reveal_strlit("w"); reveal_strlit("x");
            reveal_strlit("y"); reveal_strlit("z");
            assert(r@ =~= lower_seq(s@.subrange(0, i + 1)));
        }
        i = i + 1;
    }
    proof {
        assert(s@.subrange(0, n as int) =~= s@);
    }
    r
}

/// The decimal digit character of a value below ten.
pub open spec fn digit_char(d: int) -> char {
    if d == 0 { '0' } else if d == 1 { '1' } else if d == 2 { '2' }
    else if d == 3 { '3' } else if d == 4 { '4' } else if d == 5 { '5' }
    else if d == 6 { '6' } else if d == 7 { '7' } else if d == 8 { '8' }
    else { '9' }
}

/// Decimal rendering of a natural number, most significant digit first,
/// without leading zeroes.
pub open spec fn dec_seq(n: nat) -> Seq<char>
    decreases n,
{
    if n < 10 {
        seq![digit_char(n as int)]
    } else {
        dec_seq(n / 10).push(digit_char((n % 10) as int))
    }
}

fn append_digit(s: &mut String, d: u64)
    requires
        d < 10,
    ensures
        final(s)@ == old(s)@.push(digit_char(d as int)),
{
    match d {
        0u64 => s.append("0"), 1u64 => s.append("1"), 2u64 => s.append("2"),
        3u64 => s.append("3"), 4u64 => s.append("4"), 5u64 => s.append("5"),
        6u64 => s.append("6"), 7u64 => s.append("7"), 8u64 => s.append("8"),
        _ => s.append("9"),
    }
    proof {
        reveal_strlit("0"); reveal_strlit("1"); reveal_strlit("2");
        reveal_strlit("3"); reveal_strlit("4"); reveal_strlit("5");
        reveal_strlit("6"); reveal_strlit("7"); reveal_strlit("8");
        reveal_strlit("9");
        assert(s@ =~= old(s)@.push(digit_char(d as int)));
    }
}

/// Renders a number the way `u64::to_string` does.
pub fn u64_to_string(n: u64) -> (r: String)
    ensures
        r@ == dec_seq(n as nat),
{
    let mut digits: Vec<u64> = Vec::new();
    let mut m: u64 = n;
    loop
        invariant
            forall|k: int| 0 <= k < digits@.len() ==> 0 <= #[trigger] digits@[k] < 10,
            dec_seq(n as nat) == dec_seq(m as nat) + Seq::new(
                digits@.len(),
                |i: int| digit_char(digits@[digits@.len() - 1 - i] as int),
            ),
        ensures
            m < 10,
        decreases m,
    {
        if m < 10 {
            break;
        }
        let ghost old_digits = digits@;
        let ghost old_m = m as nat;
        digits.push(m % 10);
        m = m / 10;
        proof {
            let tail = Seq::new(
                digits@.len(),
                |i: int| digit_char(digits@[digits@.len() - 1 - i] as int),
            );
            let old_tail = Seq::new(
                old_digits.len(),
                |i: int| digit_char(old_digits[old_digits.len() - 1 - i] as int),
            );
            assert(tail =~= seq![digit_char((old_m % 10) as int)] + old_tail);
            assert(dec_seq(old_m) == dec_seq(old_m / 10).push(
                digit_char((old_m % 10) as int),
            ));
            assert(dec_seq(m as nat) + tail =~= dec_seq(old_m) + old_tail);
        }
    }
    let mut r = String::new();
    append_digit(&mut r, m);
    assert(r@ =~= dec_seq(m as nat));
    let mut j: usize = digits.len();
    while j > 0
        invariant
            j <= digits@.len(),
            forall|k: int| 0 <= k < digits@.len() ==> 0 <= #[trigger] digits@[k] < 10,
            r@ == dec_seq(m as nat) + Seq::new(
                (digits@.len() - j) as nat,
                |i: int| digit_char(digits@[digits@.len() - 1 - i] as int),
            ),
            dec_seq(n as nat) == dec_seq(m as nat) + Seq::new(
                digits@.len(),
                |i: int| digit_char(digits@[digits@.len() - 1 - i] as int),
            ),
        decreases j,
    {
        let ghost old_r = r@;
        j = j - 1;
        let d = digits[j];
        append_digit(&mut r, d);
        proof {
            let upto = Seq::new(
                (digits@.len() - j) as nat,
                |i: int| digit_char(digits@[digits@.len() - 1 - i] as int),
            );
            assert(r@ =~= dec_seq(m as nat) + upto);
        }
    }
    proof {
        let all = Seq::new(
            digits@.len(),
            |i: int| digit_char(digits@[digits@.len() - 1 - i] as int),
        );
        assert(r@ == dec_seq(m as nat) + all);
    }
    r
}

/// Decimal rendering of a signed value: a minus sign ahead of the
/// magnitude.
pub open spec fn dec_seq_i64(n: int) -> Seq<char> {
    if n >= 0 {
        dec_seq(n as nat)
    } else {
        seq!['-'] + dec_seq((-n) as nat)
    }
}

/// Renders a signed number the way `i64::to_string` does.
pub fn i64_to_string(n: i64) -> (r: String)
    ensures
        r@ == dec_seq_i64(n as int),
{
    if n >= 0 {
        u64_to_string(n as u64)
    } else {
        let mut s: String = "-".to_owned();
        let mag: u64 = if n == i64::MIN {
            9223372036854775808u64
        } else {
            (-n) as u64
        };
        let m = u64_to_string(mag);
        s.append(m.as_str());
        proof {
            reveal_strlit("-");
            assert(s@ =~= dec_seq_i64(n as int));
        }
        s
    }
}

/// The lower-case hex digit of a value below sixteen.
pub open spec fn hex_char(d: int) -> char {
    if d < 10 {
        digit_char(d)
    } else if d == 10 { 'a' } else if d == 11 { 'b' } else if d == 12 { 'c' }
    else if d == 13 { 'd' } else if d == 14 { 'e' } else { 'f' }
}

/// Lower-case hex rendering of a byte sequence, two digits a byte.
pub open spec fn hex_seq(s: Seq<u8>) -> Seq<char> {
    Seq::new(s.len() * 2, |i: int| {
        if i % 2 == 0 {
            hex_char(s[i / 2] as int / 16)
        } else {
            hex_char(s[i / 2] as int % 16)
        }
    })
}

fn append_hex_digit(s: &mut String, d: u8)
    requires
        d < 16,
    ensures
        final(s)@ == old(s)@.push(hex_char(d as int)),
{
    match d {
        0u8 => s.append("0"), 1u8 => s.append("1"), 2u8 => s.append("2"),
        3u8 => s.append("3"), 4u8 => s.append("4"), 5u8 => s.append("5"),
        6u8 => s.append("6"), 7u8 => s.append("7"), 8u8 => s.append("8"),
        9u8 => s.append("9"), 10u8 => s.append("a"), 11u8 => s.append("b"),
        12u8 => s.append("c"), 13u8 => s.append("d"), 14u8 => s.append("e"),
        _ => s.append("f"),
    }
    proof {
        reveal_strlit("0"); reveal_strlit("1"); reveal_strlit("2");
        reveal_strlit("3"); reveal_strlit("4"); reveal_strlit("5");
        reveal_strlit("6"); reveal_strlit("7"); reveal_strlit("8");
        reveal_strlit("9"); reveal_strlit("a"); reveal_strlit("b");
        reveal_strlit("c"); reveal_strlit("d"); reveal_strlit("e");
        reveal_strlit("f");
        assert(s@ =~= old(s)@.push(hex_char(d as int)));
    }
}

/// Lower-case hex rendering of bytes, as `format!("{:x}", …)` of a digest
/// renders it.
pub fn to_hex(bytes: &Vec<u8>) -> (r: String)
    ensures
        r@ == hex_seq(bytes@),
{
    let mut r = String::new();
    let mut i: usize = 0;
    while i < bytes.len()
        invariant
            i <= bytes@.len(),
            r@ == hex_seq(bytes@.subrange(0, i as int)),
        decreases bytes@.len() - i,
    {
        let b = bytes[i];
        append_hex_digit(&mut r, b / 16);
        append_hex_digit(&mut r, b % 16);
        proof {
            assert(r@ =~= hex_seq(bytes@.subrange(0, i + 1)));
        }
        i = i + 1;
    }
    proof {
        assert(bytes@.subrange(0, bytes@.len() as int) =~= bytes@);
    }
    r
}

} // verus!
