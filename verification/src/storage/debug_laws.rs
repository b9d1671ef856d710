//! What the text says in which a masked socket buffer is shown.

use vstd::arithmetic::power::pow;
use vstd::prelude::*;

use super::debug_text::{byte_text, bytes_text, decimal};
use super::masked_state::MaskedState;
use super::transmit_laws::law_count;

verus! {

/// A decimal text has a digit for each power of ten up to the number, most significant first, and
/// no more than that.
pub proof fn law_decimal(n: nat)
    ensures
        ({
            let text = decimal(n);
            &&& text.len() > 0
            &&& n < pow(10, text.len())
            &&& text.len() > 1 ==> pow(10, (text.len() - 1) as nat) <= n
            &&& forall|k: int|
                0 <= k < text.len() ==> (#[trigger] text[text.len() - 1 - k]) as int == 48 + (
                n as int / pow(10, k as nat)) % 10
        }),
    decreases n,
{
    let text = decimal(n);
    vstd::arithmetic::power::lemma_pow0(10);
    vstd::arithmetic::power::lemma_pow1(10);
    if n < 10 {
        assert forall|k: int| 0 <= k < text.len() implies (#[trigger] text[text.len() - 1 - k]) as int
            == 48 + (n as int / pow(10, k as nat)) % 10 by {
            assert(k == 0);
            assert(n as int / pow(10, 0) == n as int);
        }
    } else {
        let shorter = decimal(n / 10);
        let m = shorter.len();
        law_decimal(n / 10);
        lemma_pow_step(m);
        assert(n < pow(10, text.len()));
        assert(pow(10, (text.len() - 1) as nat) <= n) by {
            if m > 1 {
                lemma_pow_step((m - 1) as nat);
            }
        }
        assert forall|k: int| 0 <= k < text.len() implies (#[trigger] text[text.len() - 1 - k]) as int
            == 48 + (n as int / pow(10, k as nat)) % 10 by {
            if k == 0 {
                assert(n as int / pow(10, 0) == n as int);
            } else {
                assert(text[text.len() - 1 - k] == shorter[m - 1 - (k - 1)]);
                lemma_pow_step((k - 1) as nat);
                vstd::arithmetic::power::lemma_pow_positive(10, (k - 1) as nat);
                vstd::arithmetic::div_mod::lemma_div_denominator(
                    n as int,
                    10,
                    pow(10, (k - 1) as nat),
                );
                assert(n as int / pow(10, k as nat) == (n / 10) as int / pow(10, (k - 1) as nat));
            }
        }
    }
}

/// The next power of ten.
proof fn lemma_pow_step(k: nat)
    ensures
        pow(10, k + 1) == 10 * pow(10, k),
{
    reveal(pow);
}

/// A byte is shown as the character it stands for, between quotes, if that is printable ASCII or a
/// space, and else as its two hexadecimal digits; what is not to be transmitted stands between
/// brackets, with one more quote behind a character.
pub proof fn law_byte_text(byte: u8, transmit: bool)
    ensures
        ({
            let text = byte_text(byte, transmit);
            let high = byte as int / 16;
            let low = byte as int % 16;
            let from: int = if transmit {
                0
            } else {
                1
            };
            &&& !transmit ==> text[0] == '[' && text.last() == ']'
            &&& 0x20 <= byte <= 0x7e ==> {
                &&& text.len() == if transmit {
                    3int
                } else {
                    6int
                }
                &&& text[from] == '\''
                &&& text[from + 1] as int == byte
                &&& text[from + 2] == '\''
                &&& !transmit ==> text[from + 3] == '\''
            }
            &&& !(0x20 <= byte <= 0x7e) ==> {
                &&& text.len() == if transmit {
                    2int
                } else {
                    4int
                }
                &&& text[from] as int == if high < 10 {
                    48 + high
                } else {
                    87 + high
                }
                &&& text[from + 1] as int == if low < 10 {
                    48 + low
                } else {
                    87 + low
                }
            }
        }),
{
}

/// One byte is shown alone, and none as nothing.
pub proof fn law_few_bytes_text(byte: u8, transmit: bool)
    ensures
        bytes_text(seq![byte], seq![transmit]) == byte_text(byte, transmit),
        bytes_text(Seq::empty(), Seq::empty()).len() == 0,
{
}

/// Two runs of bytes, one behind the other, are shown one behind the other with a space between.
pub proof fn law_joined_text(a: Seq<u8>, b: Seq<u8>, mask_a: Seq<bool>, mask_b: Seq<bool>)
    requires
        a.len() == mask_a.len(),
        b.len() == mask_b.len(),
        a.len() > 0,
        b.len() > 0,
    ensures
        bytes_text(a + b, mask_a + mask_b) == bytes_text(a, mask_a) + seq![' '] + bytes_text(
            b,
            mask_b,
        ),
    decreases b.len(),
{
    assert((a + b).drop_last() =~= a + b.drop_last());
    assert((mask_a + mask_b).drop_last() =~= mask_a + mask_b.drop_last());
    if b.len() == 1 {
        assert(a + b.drop_last() =~= a);
        assert(mask_a + mask_b.drop_last() =~= mask_a);
    } else {
        law_joined_text(a, b.drop_last(), mask_a, mask_b.drop_last());
    }
    assert(bytes_text(a + b, mask_a + mask_b) =~= bytes_text(a, mask_a) + seq![' '] + bytes_text(
        b,
        mask_b,
    ));
}

/// A buffer is shown as empty, or with the number of its set flags, the number of its bytes, and
/// its bytes.
pub proof fn law_debug_text(state: MaskedState)
    ensures
        state.ring.contents.len() == 0 ==> state.debug_text() == "MaskedSocketBuffer { empty }"@,
        state.ring.contents.len() > 0 ==> state.debug_text() == "MaskedSocketBuffer { "@ + decimal(
            state.mask.to_multiset().count(true),
        ) + "/"@ + decimal(state.ring.contents.len()) + " transmittable: "@ + bytes_text(
            state.ring.contents,
            state.mask,
        ) + " }"@,
{
    law_count(state);
}

} // verus!
