use vstd::prelude::*;

verus! {

/// The big-endian value of four bytes.
pub open spec fn be_u32(b0: u8, b1: u8, b2: u8, b3: u8) -> u32 {
    (b0 as int * 0x1000000 + b1 as int * 0x10000 + b2 as int * 0x100 + b3 as int) as u32
}

/// The big-endian value of two bytes.
pub open spec fn be_u16(b0: u8, b1: u8) -> u16 {
    (b0 as int * 0x100 + b1 as int) as u16
}

/// Reads a big-endian `u32` at `pos`; `None` when fewer than four bytes remain.
pub fn read_u32(bytes: &[u8], pos: usize) -> (r: Option<u32>)
    ensures
        pos as int + 4 <= bytes@.len() ==> r == Some(
            be_u32(bytes@[pos as int], bytes@[pos + 1], bytes@[pos + 2], bytes@[pos + 3]),
        ),
        pos as int + 4 > bytes@.len() ==> r is None,
{
    if pos > bytes.len() || bytes.len() - pos < 4 {
        return None;
    }
    let v: u32 = bytes[pos] as u32 * 0x1000000 + bytes[pos + 1] as u32 * 0x10000
        + bytes[pos + 2] as u32 * 0x100 + bytes[pos + 3] as u32;
    Some(v)
}

/// Reads a big-endian `u16` at `pos`; `None` when fewer than two bytes remain.
pub fn read_u16(bytes: &[u8], pos: usize) -> (r: Option<u16>)
    ensures
        pos as int + 2 <= bytes@.len() ==> r == Some(be_u16(bytes@[pos as int], bytes@[pos + 1])),
        pos as int + 2 > bytes@.len() ==> r is None,
{
    if pos > bytes.len() || bytes.len() - pos < 2 {
        return None;
    }
    let v: u16 = bytes[pos] as u16 * 0x100 + bytes[pos + 1] as u16;
    Some(v)
}

} // verus!

verus! {

/// Why a load failed.
#[derive(PartialEq, Eq, Structural, Clone, Copy, Debug)]
pub enum ParseError {
    /// Bad magic, unsupported format, or a length or quantity that cannot
    /// hold. A file parse gives the byte offset of the chunk at fault (0 for
    /// the header); a track decoder gives the offset, inside the track, of
    /// the byte at which a quantity ran over its limit.
    Malformed(u64),
    /// A read or seek outside the reader's window.
    OutOfRange,
    /// A single read larger than the reader's buffer size.
    OversizedRead,
}

/// A seekable cursor over the window `[start, start + len)` of a byte source.
/// `pos` is absolute (measured from the start of the source).
pub struct BufferedByteReader {
    pub window: Vec<u8>,
    pub start: usize,
    pub len: usize,
    pub buf_size: usize,
    pub pos: usize,
}

impl BufferedByteReader {
    pub open spec fn wf(&self) -> bool {
        &&& self.window@.len() == self.len
        &&& self.start + self.len <= usize::MAX
        &&& self.start <= self.pos <= self.start + self.len
    }

    /// The cursor's offset inside the window.
    pub open spec fn rel(&self) -> int {
        self.pos - self.start
    }

    /// Makes a reader over `source[start .. start + len]`, positioned at `start`.
    pub fn new(source: &[u8], start: usize, len: usize, buf_size: usize) -> (r: Result<Self, ParseError>)
        ensures
            start as int + len as int <= source@.len() <==> r is Ok,
            r is Err ==> r == Err::<Self, ParseError>(ParseError::OutOfRange),
            r matches Ok(b) ==> {
                &&& b.wf()
                &&& b.window@ == source@.subrange(start as int, start + len)
                &&& b.start == start && b.len == len && b.buf_size == buf_size
                &&& b.pos == start
            },
    {
        if start > source.len() || source.len() - start < len {
            return Err(ParseError::OutOfRange);
        }
        let slen: usize = source.len();
        let mut window: Vec<u8> = Vec::with_capacity(len);
        let mut i: usize = 0;
        while i < len
            invariant
                i <= len,
                slen == source@.len(),
                start + len <= source@.len(),
                window@ == source@.subrange(start as int, start + i),
            decreases len - i,
        {
            window.push(source[start + i]);
            i = i + 1;
            assert(window@ =~= source@.subrange(start as int, start + i));
        }
        Ok(BufferedByteReader { window, start, len, buf_size, pos: start })
    }

    /// Moves the cursor. `origin == 0` counts `offset` from the window's start,
    /// any other origin from the current position.
    pub fn seek(&mut self, offset: i64, origin: i32) -> (r: Result<(), ParseError>)
        requires
            old(self).wf(),
        ensures
            final(self).wf(),
            ({
                let base = if origin == 0 { old(self).start as int } else { old(self).pos as int };
                let target = base + offset;
                &&& (old(self).start <= target <= old(self).start + old(self).len) <==> r is Ok
                &&& r is Ok ==> *final(self) == (BufferedByteReader { pos: target as usize, ..*old(self) })
                &&& r is Err ==> r == Err::<(), ParseError>(ParseError::OutOfRange) && *final(self) == *old(self)
            }),
    {
        let base: i128 = if origin == 0 { self.start as i128 } else { self.pos as i128 };
        let target: i128 = base + offset as i128;
        if target < self.start as i128 || target > self.start as i128 + self.len as i128 {
            return Err(ParseError::OutOfRange);
        }
        self.pos = target as usize;
        Ok(())
    }

    /// Reads `size` bytes at the cursor and advances past them.
    pub fn read(&mut self, size: usize) -> (r: Result<Vec<u8>, ParseError>)
        requires
            old(self).wf(),
        ensures
            final(self).wf(),
            old(self).rel() + size > old(self).len ==> r == Err::<Vec<u8>, ParseError>(ParseError::OutOfRange),
            old(self).rel() + size <= old(self).len && size > old(self).buf_size ==> r == Err::<Vec<u8>, ParseError>(ParseError::OversizedRead),
            old(self).rel() + size <= old(self).len && size <= old(self).buf_size ==> r is Ok,
            r is Err ==> *final(self) == *old(self),
            r matches Ok(v) ==> {
                &&& old(self).rel() + size <= old(self).len && size <= old(self).buf_size
                &&& v@ == old(self).window@.subrange(old(self).rel(), old(self).rel() + size)
                &&& *final(self) == (BufferedByteReader { pos: (old(self).pos + size) as usize, ..*old(self) })
            },
    {
        let rel: usize = self.pos - self.start;
        if size > self.len - rel {
            return Err(ParseError::OutOfRange);
        }
        if size > self.buf_size {
            return Err(ParseError::OversizedRead);
        }
        let mut out: Vec<u8> = Vec::with_capacity(size);
        let mut i: usize = 0;
        while i < size
            invariant
                self.wf(),
                rel == self.rel(),
                i <= size,
                rel + size <= self.len,
                out@ == self.window@.subrange(rel as int, rel + i),
            decreases size - i,
        {
            out.push(self.window[rel + i]);
            i = i + 1;
            assert(out@ =~= self.window@.subrange(rel as int, rel + i));
        }
        self.pos = self.pos + size;
        Ok(out)
    }

    /// Reads one byte at the cursor.
    pub fn read_byte(&mut self) -> (r: Result<u8, ParseError>)
        requires
            old(self).wf(),
        ensures
            final(self).wf(),
            old(self).rel() < old(self).len <==> r is Ok,
            r is Err ==> r == Err::<u8, ParseError>(ParseError::OutOfRange) && *final(self) == *old(self),
            r matches Ok(b) ==> {
                &&& b == old(self).window@[old(self).rel()]
                &&& *final(self) == (BufferedByteReader { pos: (old(self).pos + 1) as usize, ..*old(self) })
            },
    {
        if self.pos - self.start >= self.len {
            return Err(ParseError::OutOfRange);
        }
        let b = self.window[self.pos - self.start];
        self.pos = self.pos + 1;
        Ok(b)
    }

    /// Advances the cursor by `size` bytes.
    pub fn skip_bytes(&mut self, size: usize) -> (r: Result<(), ParseError>)
        requires
            old(self).wf(),
        ensures
            final(self).wf(),
            old(self).rel() + size <= old(self).len <==> r is Ok,
            r is Err ==> r == Err::<(), ParseError>(ParseError::OutOfRange) && *final(self) == *old(self),
            r is Ok ==> *final(self) == (BufferedByteReader { pos: (old(self).pos + size) as usize, ..*old(self) }),
    {
        if size > self.len - (self.pos - self.start) {
            return Err(ParseError::OutOfRange);
        }
        self.pos = self.pos + size;
        Ok(())
    }
}

} // verus!
