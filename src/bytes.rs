//! A bounded cursor over an immutable byte window.
use vstd::prelude::*;
use vstd::slice::slice_subrange;

verus! {

/// A cursor over a borrowed byte slice. Reading consumes bytes from the front; the bytes that remain
/// are the reader's view.
#[derive(Debug, Clone, Copy)]
pub struct BytesReader<'b> {
    bytes: &'b [u8],
}

#[derive(Debug, Clone, Copy, PartialEq, Eq, Structural)]
pub enum BytesReaderError {
    EndOfBuffer,
}

impl<'b> View for BytesReader<'b> {
    type V = Seq<u8>;

    closed spec fn view(&self) -> Seq<u8> {
        self.bytes@
    }
}

/// The big-endian value of a sequence of bytes.
pub open spec fn be_value(b: Seq<u8>) -> nat
    decreases b.len(),
{
    if b.len() == 0 {
        0
    } else {
        be_value(b.drop_last()) * 256 + b.last() as nat
    }
}

/// `256` to the power `n`: one more than the largest value that `n` bytes hold.
pub open spec fn pow256(n: nat) -> nat
    decreases n,
{
    if n == 0 {
        1
    } else {
        256 * pow256((n - 1) as nat)
    }
}

pub proof fn lemma_pow256_mono(m: nat, n: nat)
    requires
        m <= n,
    ensures
        pow256(m) <= pow256(n),
    decreases n,
{
    if m < n {
        lemma_pow256_mono(m, (n - 1) as nat);
    }
}

pub proof fn lemma_be_value_step(c: Seq<u8>, k: int)
    requires
        0 <= k < c.len(),
    ensures
        be_value(c.take(k + 1)) == be_value(c.take(k)) * 256 + c[k] as nat,
{
    assert(c.take(k + 1).drop_last() =~= c.take(k));
}

/// The big-endian value of up to eight bytes.
pub fn be_uint(c: &[u8]) -> (r: u64)
    requires
        c@.len() <= 8,
    ensures
        r as nat == be_value(c@),
        r < pow256(c@.len()),
{
    let mut v: u64 = 0;
    let mut i: usize = 0;
    proof {
        assert(c@.take(0) =~= Seq::<u8>::empty());
        assert(pow256(8) == 0x1_0000_0000_0000_0000) by {
            reveal_with_fuel(pow256, 9);
        }
    }
    while i < c.len()
        invariant
            i <= c@.len() <= 8,
            v as nat == be_value(c@.take(i as int)),
            v < pow256(i as nat),
            pow256(8) == 0x1_0000_0000_0000_0000,
        decreases c@.len() - i,
    {
        proof {
            lemma_be_value_step(c@, i as int);
            lemma_pow256_mono((i + 1) as nat, 8);
        }
        v = v * 256 + c[i] as u64;
        i += 1;
    }
    proof {
        assert(c@.take(c@.len() as int) =~= c@);
    }
    v
}

impl<'b> BytesReader<'b> {
    pub fn new(bytes: &'b [u8]) -> (r: Self)
        ensures
            r@ == bytes@,
    {
        Self { bytes }
    }

    /// Returns the next `length` bytes without consuming them.
    pub fn peek_bytes(&self, length: usize) -> (r: Result<&'b [u8], BytesReaderError>)
        ensures
            length <= self@.len() ==> (r matches Ok(s) && s@ == self@.take(length as int)),
            length > self@.len() ==> r == Err::<&'b [u8], _>(BytesReaderError::EndOfBuffer),
    {
        if length <= self.bytes.len() {
            Ok(slice_subrange(self.bytes, 0, length))
        } else {
            Err(BytesReaderError::EndOfBuffer)
        }
    }

    /// Consumes and returns the next `length` bytes. On failure nothing is consumed.
    pub fn read_bytes(&mut self, length: usize) -> (r: Result<&'b [u8], BytesReaderError>)
        ensures
            length <= old(self)@.len() ==> (r matches Ok(s) && s@ == old(self)@.take(length as int)
                && final(self)@ == old(self)@.skip(length as int)),
            length > old(self)@.len() ==> r == Err::<&'b [u8], _>(BytesReaderError::EndOfBuffer)
                && final(self)@ == old(self)@,
    {
        if length <= self.bytes.len() {
            let (read, remaining) = self.bytes.split_at(length);
            self.bytes = remaining;
            Ok(read)
        } else {
            Err(BytesReaderError::EndOfBuffer)
        }
    }

    /// Consumes the next `N` bytes and returns them as an array.
    pub fn read_u8_array<const N: usize>(&mut self) -> (r: Result<[u8; N], BytesReaderError>)
        ensures
            N <= old(self)@.len() ==> (r matches Ok(a) && a@ == old(self)@.take(N as int)
                && final(self)@ == old(self)@.skip(N as int)),
            N > old(self)@.len() ==> r == Err::<[u8; N], _>(BytesReaderError::EndOfBuffer)
                && final(self)@ == old(self)@,
    {
        let slice = self.read_bytes(N)?;
        let mut array: [u8; N] = [0u8; N];
        let mut i: usize = 0;
        while i < N
            invariant
                i <= N,
                slice@.len() == N,
                array@.len() == N,
                forall|j: int| 0 <= j < i ==> array@[j] == slice@[j],
            decreases N - i,
        {
            array[i] = slice[i];
            i += 1;
        }
        assert(array@ =~= slice@);
        Ok(array)
    }

    /// Returns a reader over the next `length` bytes, leaving this reader unchanged.
    pub fn peek_sub_reader(&mut self, length: usize) -> (r: Result<Self, BytesReaderError>)
        ensures
            final(self)@ == old(self)@,
            length <= old(self)@.len() ==> (r matches Ok(s) && s@ == old(self)@.take(length as int)),
            length > old(self)@.len() ==> r == Err::<Self, _>(BytesReaderError::EndOfBuffer),
    {
        let bytes = self.peek_bytes(length)?;
        Ok(Self::new(bytes))
    }

    /// Consumes the next `length` bytes and returns a reader over them.
    pub fn take_sub_reader(&mut self, length: usize) -> (r: Result<Self, BytesReaderError>)
        ensures
            length <= old(self)@.len() ==> (r matches Ok(s) && s@ == old(self)@.take(length as int)
                && final(self)@ == old(self)@.skip(length as int)),
            length > old(self)@.len() ==> r == Err::<Self, _>(BytesReaderError::EndOfBuffer)
                && final(self)@ == old(self)@,
    {
        let bytes = self.read_bytes(length)?;
        Ok(Self::new(bytes))
    }

    /// Truncates the remaining bytes to the first `length`.
    pub fn limit(&mut self, length: usize) -> (r: Result<(), BytesReaderError>)
        ensures
            length <= old(self)@.len() ==> r is Ok && final(self)@ == old(self)@.take(length as int),
            length > old(self)@.len() ==> r == Err::<(), _>(BytesReaderError::EndOfBuffer)
                && final(self)@ == old(self)@,
    {
        let bytes = self.peek_bytes(length)?;
        self.bytes = bytes;
        Ok(())
    }

    /// Discards the next `length` bytes.
    pub fn skip(&mut self, length: usize) -> (r: Result<(), BytesReaderError>)
        ensures
            length <= old(self)@.len() ==> r is Ok && final(self)@ == old(self)@.skip(length as int),
            length > old(self)@.len() ==> r == Err::<(), _>(BytesReaderError::EndOfBuffer)
                && final(self)@ == old(self)@,
    {
        let _ = self.read_bytes(length)?;
        Ok(())
    }

    /// Returns the next byte without consuming it.
    pub fn peek_u8(&self) -> (r: Result<u8, BytesReaderError>)
        ensures
            self@.len() > 0 ==> r == Ok::<u8, BytesReaderError>(self@[0]),
            self@.len() == 0 ==> r == Err::<u8, _>(BytesReaderError::EndOfBuffer),
    {
        if self.bytes.len() > 0 {
            Ok(self.bytes[0])
        } else {
            Err(BytesReaderError::EndOfBuffer)
        }
    }

    /// Consumes and returns the next byte.
    pub fn read_u8(&mut self) -> (r: Result<u8, BytesReaderError>)
        ensures
            old(self)@.len() > 0 ==> r == Ok::<u8, BytesReaderError>(old(self)@[0])
                && final(self)@ == old(self)@.skip(1),
            old(self)@.len() == 0 ==> r == Err::<u8, _>(BytesReaderError::EndOfBuffer)
                && final(self)@ == old(self)@,
    {
        let value = self.peek_u8()?;
        self.bytes = slice_subrange(self.bytes, 1, self.bytes.len());
        Ok(value)
    }

    /// Consumes two bytes and returns them as a big-endian integer.
    pub fn read_u16_be(&mut self) -> (r: Result<u16, BytesReaderError>)
        ensures
            old(self)@.len() >= 2 ==> (r matches Ok(v) && v as nat == be_value(old(self)@.take(2))
                && final(self)@ == old(self)@.skip(2)),
            old(self)@.len() < 2 ==> r == Err::<u16, _>(BytesReaderError::EndOfBuffer)
                && final(self)@ == old(self)@,
    {
        let array: [u8; 2] = self.read_u8_array()?;
        proof {
            let t = old(self)@.take(2);
            assert(t.drop_last() =~= t.take(1));
            assert(t.take(1).drop_last() =~= Seq::<u8>::empty());
            assert(be_value(Seq::<u8>::empty()) == 0);
            assert(t.take(1).last() == t[0]);
            assert(be_value(t.take(1)) == t[0] as nat);
            assert(be_value(t) == t[0] as nat * 256 + t[1] as nat);
        }
        Ok((array[0] as u16) * 256 + array[1] as u16)
    }

    pub fn is_empty(&self) -> (r: bool)
        ensures
            r == (self@.len() == 0),
    {
        self.bytes.len() == 0
    }
}

} // verus!
