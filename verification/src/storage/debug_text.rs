//! The text in which a masked socket buffer is shown.

use vstd::prelude::*;

verus! {

/// `String::push` of std: appends one character.
///
/// Trusted: the contract claims that the string afterwards is the string before, followed by the
/// character.
pub assume_specification[ String::push ](s: &mut String, c: char)
    ensures
        final(s)@ == old(s)@.push(c),
;

/// The hexadecimal digit, in lower case, of a number below 16.
pub open spec fn digit(n: int) -> char {
    if n < 10 {
        ('0' as int + n) as char
    } else {
        ('a' as int + n - 10) as char
    }
}

/// The decimal text of a number.
pub open spec fn decimal(n: nat) -> Seq<char>
    decreases n,
{
    if n < 10 {
        seq![digit(n as int)]
    } else {
        decimal(n / 10).push(digit((n % 10) as int))
    }
}

/// Whether a byte is shown as a character: a printable ASCII character, or a space.
pub open spec fn shown_as_char(byte: u8) -> bool {
    0x20 <= byte <= 0x7e
}

/// How a byte is shown: quoted if it is printable, else as two hexadecimal digits; within brackets
/// if it is not to be transmitted. A quoted byte within brackets is closed by two quotes.
pub open spec fn byte_text(byte: u8, transmit: bool) -> Seq<char> {
    let c = byte as char;
    let high = digit((byte / 16) as int);
    let low = digit((byte % 16) as int);
    if transmit {
        if shown_as_char(byte) {
            seq!['\'', c, '\'']
        } else {
            seq![high, low]
        }
    } else {
        if shown_as_char(byte) {
            seq!['[', '\'', c, '\'', '\'', ']']
        } else {
            seq!['[', high, low, ']']
        }
    }
}

/// How a run of bytes is shown: each byte, with spaces between.
pub open spec fn bytes_text(bytes: Seq<u8>, mask: Seq<bool>) -> Seq<char>
    decreases bytes.len(),
{
    if bytes.len() == 0 {
        Seq::empty()
    } else if bytes.len() == 1 {
        byte_text(bytes[0], mask[0])
    } else {
        bytes_text(bytes.drop_last(), mask.drop_last()).push(' ') + byte_text(
            bytes.last(),
            mask.last(),
        )
    }
}

/// Returns a hexadecimal digit.
fn digit_char(n: u8) -> (c: char)
    requires
        n < 16,
    ensures
        c == digit(n as int),
{
    let code: u8 = if n < 10 {
        48 + n
    } else {
        87 + n
    };
    code as char
}

/// Appends the decimal text of `n`.
pub(crate) fn push_decimal(text: &mut String, n: usize)
    ensures
        final(text)@ == old(text)@ + decimal(n as nat),
    decreases n,
{
    if n >= 10 {
        push_decimal(text, n / 10);
    }
    text.push(digit_char((n % 10) as u8));
    assert(text@ =~= old(text)@ + decimal(n as nat));
}

/// Appends a byte as it is shown.
pub(crate) fn push_byte(text: &mut String, byte: u8, transmit: bool)
    ensures
        final(text)@ == old(text)@ + byte_text(byte, transmit),
{
    if !transmit {
        text.push('[');
    }
    if 0x20 <= byte && byte <= 0x7e {
        text.push('\'');
        text.push(byte as char);
        text.push('\'');
        if !transmit {
            text.push('\'');
        }
    } else {
        text.push(digit_char(byte / 16));
        text.push(digit_char(byte % 16));
    }
    if !transmit {
        text.push(']');
    }
    assert(text@ =~= old(text)@ + byte_text(byte, transmit));
}

} // verus!
