use vstd::prelude::*;

use crate::errors::AwawaError;

verus! {

/// The 64 characters of AwaSCII, in code order.
#[verifier::opaque]
pub open spec fn awascii_table() -> Seq<char> {
    seq![
        'A', 'W', 'a', 'w', 'J', 'E', 'L', 'Y', 'H', 'O', 'S', 'I', 'U', 'M', 'j', 'e',
        'l', 'y', 'h', 'o', 's', 'i', 'u', 'm', 'P', 'C', 'N', 'T', 'p', 'c', 'n', 't',
        'B', 'D', 'F', 'G', 'R', 'b', 'd', 'f', 'g', 'r', '0', '1', '2', '3', '4', '5',
        '6', '7', '8', '9', ' ', '.', ',', '!', '\u{27}', '\u{28}', '\u{29}', '~', '_', '/', ';', '\n',
    ]
}

fn table() -> (r: Vec<char>)
    ensures
        r@ == awascii_table(),
        awascii_table().len() == 64,
{
    let r = vec![
        'A', 'W', 'a', 'w', 'J', 'E', 'L', 'Y', 'H', 'O', 'S', 'I', 'U', 'M', 'j', 'e',
        'l', 'y', 'h', 'o', 's', 'i', 'u', 'm', 'P', 'C', 'N', 'T', 'p', 'c', 'n', 't',
        'B', 'D', 'F', 'G', 'R', 'b', 'd', 'f', 'g', 'r', '0', '1', '2', '3', '4', '5',
        '6', '7', '8', '9', ' ', '.', ',', '!', '\u{27}', '\u{28}', '\u{29}', '~', '_', '/', ';', '\n',
    ];
    proof {
        reveal(awascii_table);
    }
    assert(r@ =~= awascii_table());
    r
}

/// The first position from `i` on that holds `c`.
pub open spec fn code_from(c: char, i: int) -> Option<i32>
    decreases 64 - i,
{
    if i < 0 || i >= 64 {
        None
    } else if awascii_table()[i] == c {
        Some(i as i32)
    } else {
        code_from(c, i + 1)
    }
}

/// The AwaSCII code of `c`, if it has one.
pub open spec fn awascii_code(c: char) -> Option<i32> {
    code_from(c, 0)
}

/// The character with AwaSCII code `index`.
pub fn awascii(index: i32) -> (r: Result<char, AwawaError>)
    ensures
        0 <= index < 64 ==> r == Ok::<char, AwawaError>(awascii_table()[index as int]),
        !(0 <= index < 64) ==> (r matches Err(AwawaError::InvalidAwasciiCodeError(i)) && i == index),
{
    if index < 0 || index >= 64 {
        return Err(AwawaError::InvalidAwasciiCodeError(index));
    }
    let t = table();
    Ok(t[index as usize])
}

/// The AwaSCII code of `c`, if `c` has one.
pub fn ord(c: char) -> (r: Option<i32>)
    ensures
        r matches Some(i) ==> (0 <= i < 64 && awascii_table()[i as int] == c
            && forall|j: int| 0 <= j < i ==> awascii_table()[j] != c),
        r is None ==> forall|j: int| 0 <= j < 64 ==> awascii_table()[j] != c,
        r == awascii_code(c),
{
    let t = table();
    let mut i: usize = 0;
    while i < t.len()
        invariant
            t@ == awascii_table(),
            t@.len() == 64,
            i <= t@.len(),
            forall|j: int| 0 <= j < i ==> t@[j] != c,
            awascii_code(c) == code_from(c, i as int),
        decreases t@.len() - i,
    {
        if t[i] == c {
            return Some(i as i32);
        }
        i += 1;
    }
    None
}

/// The decimal digit `d`.
pub open spec fn digit_char(d: nat) -> char {
    ((d + 48) as u8) as char
}

/// The decimal digits of `n`.
pub open spec fn digits_text(n: nat) -> Seq<char>
    decreases n,
{
    if n < 10 {
        seq![digit_char(n)]
    } else {
        digits_text(n / 10) + seq![digit_char(n % 10)]
    }
}

/// `v` in decimal, with a leading `-` when negative.
pub open spec fn int_text(v: int) -> Seq<char> {
    if v < 0 {
        seq!['-'] + digits_text((-v) as nat)
    } else {
        digits_text(v as nat)
    }
}

/// Appends the decimal digits of `n`.
pub fn push_digits(n: u64, out: &mut Vec<char>)
    ensures
        final(out)@ == old(out)@ + digits_text(n as nat),
    decreases n,
{
    if n >= 10 {
        push_digits(n / 10, out);
    }
    let d = (n % 10) as u8;
    out.push((d + 48) as char);
    assert(out@ =~= old(out)@ + digits_text(n as nat));
}

/// Appends `v` in decimal.
pub fn push_int(v: i64, out: &mut Vec<char>)
    requires
        v > i64::MIN,
    ensures
        final(out)@ == old(out)@ + int_text(v as int),
{
    if v < 0 {
        out.push('-');
        push_digits((-v) as u64, out);
        assert(out@ =~= old(out)@ + int_text(v as int));
    } else {
        push_digits(v as u64, out);
    }
}

/// How a scalar is shown: as its quoted AwaSCII character when it has one
/// (a newline as `'\n'`), else in decimal.
pub open spec fn scalar_text(v: i32) -> Seq<char> {
    if 0 <= v < 64 {
        if awascii_table()[v as int] == '\n' {
            seq!['\u{27}', '\\', 'n', '\u{27}']
        } else {
            seq!['\u{27}', awascii_table()[v as int], '\u{27}']
        }
    } else {
        int_text(v as int)
    }
}

/// Appends how scalar `v` is shown.
pub fn push_scalar(v: i32, out: &mut Vec<char>)
    ensures
        final(out)@ == old(out)@ + scalar_text(v),
{
    match awascii(v) {
        Ok(c) => {
            out.push('\u{27}');
            if c == '\n' {
                out.push('\\');
                out.push('n');
            } else {
                out.push(c);
            }
            out.push('\u{27}');
            assert(out@ =~= old(out)@ + scalar_text(v));
        },
        Err(_) => push_int(v as i64, out),
    }
}

} // verus!
