use vstd::prelude::*;
use vstd::string::StringSliceAdditionalSpecFns;

verus! {

/// The length prefix that a reader decodes from the header bytes it received:
/// every byte is folded in by shifting the accumulator four bits to the left
/// (bits shifted out of the word are lost) and or-ing the byte in.
pub open spec fn header_value(bytes: Seq<u8>) -> usize
    decreases bytes.len(),
{
    if bytes.len() == 0 {
        0
    } else {
        (header_value(bytes.drop_last()) << 4usize) | (bytes.last() as usize)
    }
}

/// Decodes the length prefix of an incoming message.
pub fn byte_be_to_usize(buf: &Vec<u8>) -> (out: usize)
    ensures
        out == header_value(buf@),
{
    let mut out: usize = 0;
    let n = buf.len();
    for i in 0..n
        invariant
            n == buf@.len(),
            out == header_value(buf@.take(i as int)),
    {
        assert(buf@.take(i + 1).drop_last() =~= buf@.take(i as int));
        out = (out << 4usize) | (buf[i] as usize);
    }
    assert(buf@.take(n as int) =~= buf@);
    out
}

/// The `width` bytes of `n`, most significant first.
pub open spec fn be_bytes(n: nat, width: nat) -> Seq<u8>
    decreases width,
{
    if width == 0 {
        Seq::empty()
    } else {
        be_bytes(n / 256, (width - 1) as nat).push((n % 256) as u8)
    }
}

fn push_be_bytes(out: &mut Vec<u8>, n: usize, width: usize)
    ensures
        final(out)@ == old(out)@ + be_bytes(n as nat, width as nat),
    decreases width,
{
    if width > 0 {
        push_be_bytes(out, n / 256, width - 1);
        out.push((n % 256) as u8);
        assert(final(out)@ =~= old(out)@ + be_bytes(n as nat, width as nat));
    }
}

/// The bytes that carry a message to a player: its length in bytes as a
/// machine word, most significant byte first, then its UTF-8 encoding.
pub fn encode_frame(state: &str) -> (frame: Vec<u8>)
    ensures
        frame@ == be_bytes(state.spec_bytes().len(), (usize::BITS / 8) as nat) + state.spec_bytes(),
{
    let payload = state.as_bytes();
    let mut frame: Vec<u8> = Vec::new();
    push_be_bytes(&mut frame, payload.len(), (usize::BITS / 8) as usize);
    let n = payload.len();
    let ghost head = frame@;
    for i in 0..n
        invariant
            n == payload@.len(),
            frame@ =~= head + payload@.take(i as int),
    {
        frame.push(payload[i]);
    }
    assert(payload@.take(n as int) =~= payload@);
    frame
}

/// The number that hexadecimal digits stand for, most significant first.
pub open spec fn nibble_value(digits: Seq<u8>) -> nat
    decreases digits.len(),
{
    if digits.len() == 0 {
        0
    } else {
        nibble_value(digits.drop_last()) * 16 + digits.last() as nat
    }
}

/// Sixteen to the power `k`.
pub open spec fn nibble_cap(k: nat) -> nat
    decreases k,
{
    if k == 0 {
        1
    } else {
        16 * nibble_cap((k - 1) as nat)
    }
}

proof fn lemma_nibble_cap_grows(a: nat, b: nat)
    requires
        a <= b,
    ensures
        nibble_cap(a) <= nibble_cap(b),
    decreases b,
{
    if a < b {
        lemma_nibble_cap_grows(a, (b - 1) as nat);
    }
}

proof fn lemma_zero_header(width: nat)
    ensures
        header_value(be_bytes(0, width)) == 0,
    decreases width,
{
    if width > 0 {
        lemma_zero_header((width - 1) as nat);
        let h: usize = 0;
        assert((h << 4usize) | 0usize == 0usize) by (bit_vector)
            requires
                h == 0usize,
        ;
        assert(be_bytes(0, width).drop_last() == be_bytes(0, (width - 1) as nat));
    }
}

/// A header of any width that carries a number below 256 reads back as that
/// number.
pub proof fn law_small_headers_round_trip(n: nat, width: nat)
    requires
        n < 256,
        width >= 1,
    ensures
        header_value(be_bytes(n, width)) == n,
{
    lemma_zero_header((width - 1) as nat);
    let b = be_bytes(n, width);
    assert(b.drop_last() == be_bytes(0, (width - 1) as nat));
    let x: usize = n as usize;
    let h: usize = 0;
    assert((h << 4usize) | x == x) by (bit_vector)
        requires
            h == 0usize,
            x < 256usize,
    ;
}

/// The round trip stops at 256: its header of two bytes or more reads back
/// as 16, since each byte is folded in four bits apart.
pub proof fn law_header_of_256(width: nat)
    requires
        width >= 2,
    ensures
        header_value(be_bytes(256, width)) == 16,
{
    law_small_headers_round_trip(1, (width - 1) as nat);
    let b = be_bytes(256, width);
    assert(b.drop_last() == be_bytes(1, (width - 1) as nat));
    let h: usize = 1;
    assert((h << 4usize) | 0usize == 16usize) by (bit_vector)
        requires
            h == 1usize,
    ;
}

/// Bytes that are each a hexadecimal digit, no more of them than fit a
/// machine word four bits apart, read as the number they spell in base 16.
pub proof fn law_digit_headers(digits: Seq<u8>)
    requires
        forall|i: int| 0 <= i < digits.len() ==> #[trigger] digits[i] < 16,
        digits.len() * 4 <= usize::BITS,
    ensures
        header_value(digits) == nibble_value(digits),
        nibble_value(digits) < nibble_cap(digits.len()),
    decreases digits.len(),
{
    if digits.len() > 0 {
        let front = digits.drop_last();
        law_digit_headers(front);
        let x = header_value(front);
        let d: usize = digits.last() as usize;
        assert(d < 16);
        lemma_nibble_cap_grows(front.len(), (usize::BITS / 4 - 1) as nat);
        assert(usize::BITS == 32 || usize::BITS == 64);
        if usize::BITS == 32 {
            assert(nibble_cap(7) == 0x1000_0000) by {
                reveal_with_fuel(nibble_cap, 8);
            }
            assert(x < 0x1000_0000);
            assert((x << 4usize) | d == x * 16 + d) by (bit_vector)
                requires
                    x < 0x1000_0000usize,
                    d < 16usize,
                    usize::BITS == 32,
            ;
        } else {
            assert(nibble_cap(15) == 0x1000_0000_0000_0000) by {
                reveal_with_fuel(nibble_cap, 16);
            }
            assert((x as u64) < 0x1000_0000_0000_0000u64);
            assert(((x as u64) << 4u64) | (d as u64) == (x as u64) * 16 + (d as u64)) by (bit_vector)
                requires
                    (x as u64) < 0x1000_0000_0000_0000u64,
                    (d as u64) < 16u64,
            ;
            assert((x << 4usize) | d == ((x as u64) << 4u64) | (d as u64)) by (bit_vector)
                requires
                    usize::BITS == 64,
            ;
        }
    }
}

} // verus!
