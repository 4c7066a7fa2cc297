//! The rolling-key XOR stream that hides entry keys and values.

use vstd::prelude::*;

verus! {

/// What the key grows by after every byte.
pub const JUMP_XOR: u8 = 0x09;

/// One step of the key: it grows by [`JUMP_XOR`] and wraps at 256.
pub open spec fn next_key(key: u8) -> u8 {
    ((key as nat + JUMP_XOR as nat) % 256) as u8
}

/// The key in force after `count` bytes have gone through a stream that
/// started with `key`.
pub open spec fn key_after(key: u8, count: nat) -> u8
    decreases count,
{
    if count == 0 {
        key
    } else {
        next_key(key_after(key, (count - 1) as nat))
    }
}

/// The stream transform: byte `i` of `source` is XORed with the key that is in
/// force after `i` bytes.
pub open spec fn xor_stream(source: Seq<u8>, key: u8) -> Seq<u8> {
    Seq::new(source.len(), |i: int| source[i] ^ key_after(key, i as nat))
}

/// Two bytes, least significant first, as a number.
pub open spec fn le_u16(bytes: Seq<u8>) -> u16
    recommends
        bytes.len() == 2,
{
    (bytes[0] as nat + 256 * bytes[1] as nat) as u16
}

/// Four bytes, least significant first, as a number.
pub open spec fn le_u32(bytes: Seq<u8>) -> u32
    recommends
        bytes.len() == 4,
{
    (bytes[0] as nat + 256 * bytes[1] as nat + 65536 * bytes[2] as nat + 16777216
        * bytes[3] as nat) as u32
}

/// Starting one step later is the same as running one byte longer.
pub proof fn lemma_key_after_shift(key: u8, count: nat)
    ensures
        key_after(next_key(key), count) == key_after(key, count + 1),
    decreases count,
{
    if count > 0 {
        lemma_key_after_shift(key, (count - 1) as nat);
        assert(key_after(key, count + 1) == next_key(key_after(key, count)));
    } else {
        assert(key_after(key, 1) == next_key(key_after(key, 0)));
    }
}

/// XOR with the same key twice gives the byte back.
pub proof fn lemma_xor_twice(byte: u8, key: u8)
    ensures
        (byte ^ key) ^ key == byte,
{
    assert((byte ^ key) ^ key == byte) by (bit_vector);
}

/// Running the stream transform over its own output, with the same starting
/// key, gives the input back: the key sequence does not depend on the data,
/// so hiding and revealing are the same operation.
pub proof fn lemma_xor_stream_round_trip(source: Seq<u8>, key: u8)
    ensures
        xor_stream(xor_stream(source, key), key) == source,
        xor_stream(source, key).len() == source.len(),
{
    let once = xor_stream(source, key);
    let twice = xor_stream(once, key);
    assert forall|i: int| 0 <= i < source.len() implies twice[i] == source[i] by {
        lemma_xor_twice(source[i], key_after(key, i as nat));
    }
    assert(twice =~= source);
}

/// The stream over what is left of a source equals the stream over the whole
/// source with its first byte dropped, once the key has taken one step.
pub proof fn lemma_xor_stream_skip(source: Seq<u8>, key: u8)
    requires
        source.len() > 0,
    ensures
        xor_stream(source.skip(1), next_key(key)) == xor_stream(source, key).skip(1),
        xor_stream(source, key)[0] == source[0] ^ key,
{
    let left = xor_stream(source.skip(1), next_key(key));
    let right = xor_stream(source, key).skip(1);
    assert forall|i: int| 0 <= i < left.len() implies left[i] == right[i] by {
        lemma_key_after_shift(key, i as nat);
    }
    assert(left =~= right);
}

/// A cursor over obfuscated bytes that hands them out in the clear.
///
/// The cursor's view is the plain text that it has not handed out yet.
pub struct XorDecoder<'a> {
    bytes: &'a [u8],
    key: u8,
    index: usize,
}

impl<'a> View for XorDecoder<'a> {
    type V = Seq<u8>;

    closed spec fn view(&self) -> Seq<u8> {
        if self.index <= self.bytes@.len() {
            xor_stream(self.bytes@.skip(self.index as int), self.key)
        } else {
            Seq::empty()
        }
    }
}

impl<'a> Clone for XorDecoder<'a> {
    /// A second cursor at the same place, which moves on its own.
    fn clone(&self) -> (copy: XorDecoder<'a>)
        ensures
            copy@ == self@,
    {
        XorDecoder { bytes: self.bytes, key: self.key, index: self.index }
    }
}

impl<'a> XorDecoder<'a> {
    /// A cursor at the start of `bytes`, with `key` as the first key.
    pub fn new(bytes: &'a [u8], key: u8) -> (decoder: XorDecoder<'a>)
        ensures
            decoder@ == xor_stream(bytes@, key),
    {
        proof {
            assert(bytes@.skip(0) =~= bytes@);
        }
        XorDecoder { bytes, key, index: 0 }
    }

    /// The next plain byte without taking it, or `None` at the end.
    pub fn peek(&self) -> (byte: Option<u8>)
        ensures
            byte == if self@.len() > 0 {
                Some(self@[0])
            } else {
                None
            },
    {
        if self.index < self.bytes.len() {
            Some(self.bytes[self.index] ^ self.key)
        } else {
            None
        }
    }

    /// Takes the next plain byte, or returns `None` at the end and leaves the
    /// cursor as it was.
    pub fn next(&mut self) -> (byte: Option<u8>)
        ensures
            old(self)@.len() == 0 ==> byte is None && final(self)@ == old(self)@,
            old(self)@.len() > 0 ==> byte == Some(old(self)@[0]) && final(self)@ == old(
                self,
            )@.skip(1),
    {
        if self.index < self.bytes.len() {
            let byte: u8 = self.bytes[self.index] ^ self.key;
            proof {
                let rest = self.bytes@.skip(self.index as int);
                lemma_xor_stream_skip(rest, self.key);
                assert(rest.skip(1) =~= self.bytes@.skip(self.index as int + 1));
            }
            self.key = self.key.wrapping_add(JUMP_XOR);
            self.index = self.index + 1;
            Some(byte)
        } else {
            None
        }
    }

    /// Takes two bytes as a little-endian number.  With fewer than two bytes
    /// left it returns `None` and the cursor ends up exhausted.
    pub fn read_u16(&mut self) -> (value: Option<u16>)
        ensures
            old(self)@.len() >= 2 ==> value == Some(le_u16(old(self)@.take(2))) && final(self)@
                == old(self)@.skip(2),
            old(self)@.len() < 2 ==> value is None && final(self)@ == Seq::<u8>::empty(),
    {
        let Some(low) = self.next() else {
            assert(self@ =~= Seq::<u8>::empty());
            return None;
        };
        let Some(high) = self.next() else {
            assert(self@ =~= Seq::<u8>::empty());
            return None;
        };
        assert(self@ =~= old(self)@.skip(2));
        Some(low as u16 + 256 * (high as u16))
    }

    /// Takes four bytes as a little-endian number.  With fewer than four
    /// bytes left it returns `None` and the cursor ends up exhausted.
    pub fn read_u32(&mut self) -> (value: Option<u32>)
        ensures
            old(self)@.len() >= 4 ==> value == Some(le_u32(old(self)@.take(4))) && final(self)@
                == old(self)@.skip(4),
            old(self)@.len() < 4 ==> value is None && final(self)@ == Seq::<u8>::empty(),
    {
        let Some(b0) = self.next() else {
            assert(self@ =~= Seq::<u8>::empty());
            return None;
        };
        let Some(b1) = self.next() else {
            assert(self@ =~= Seq::<u8>::empty());
            return None;
        };
        let Some(b2) = self.next() else {
            assert(self@ =~= Seq::<u8>::empty());
            return None;
        };
        let Some(b3) = self.next() else {
            assert(self@ =~= Seq::<u8>::empty());
            return None;
        };
        assert(self@ =~= old(self)@.skip(4));
        Some(b0 as u32 + 256 * (b1 as u32) + 65536 * (b2 as u32) + 16777216 * (b3 as u32))
    }

    /// Takes up to `count` bytes: all of them where that many are left, else
    /// whatever is left.
    pub fn take(&mut self, count: usize) -> (taken: Vec<u8>)
        ensures
            count <= old(self)@.len() ==> taken@ == old(self)@.take(count as int) && final(self)@
                == old(self)@.skip(count as int),
            count > old(self)@.len() ==> taken@ == old(self)@ && final(self)@ == Seq::<
                u8,
            >::empty(),
    {
        let mut taken: Vec<u8> = Vec::new();
        let mut n: usize = 0;
        while n < count
            invariant
                n <= count,
                n <= old(self)@.len(),
                taken@ == old(self)@.take(n as int),
                self@ == old(self)@.skip(n as int),
            decreases count - n,
        {
            match self.next() {
                Some(byte) => {
                    taken.push(byte);
                    n = n + 1;
                    assert(taken@ =~= old(self)@.take(n as int));
                    assert(self@ =~= old(self)@.skip(n as int));
                },
                None => {
                    assert(taken@ =~= old(self)@);
                    assert(self@ =~= Seq::<u8>::empty());
                    return taken;
                },
            }
        }
        taken
    }
}

} // verus!
