use vstd::prelude::*;
use crate::bytes::copy_bytes;

verus! {

/// The ways a file can be opened; mirrors the raw file layer's modes.
#[derive(Clone, Copy, Debug, PartialEq, Eq, Structural)]
pub enum OpenMode {
    OnlyRead,
    OnlyWrite,
    OnlyAppend,
    ReadAppend,
    ReadWrite,
    TruncateWrite,
    TruncateReadWrite,
}

/// The concurrency discipline of a handle, fixed when the handle is built.
#[derive(Clone, Copy, Debug, PartialEq, Eq, Structural)]
pub enum LockKind {
    /// One serializer for every read and write on the handle.
    Exclusive,
    /// Many readers, or one writer.
    ReaderWriter,
}

/// True of the modes in which each write replaces the file's contents.
pub open spec fn replaces_contents(mode: OpenMode) -> bool {
    mode == OpenMode::TruncateWrite || mode == OpenMode::TruncateReadWrite
}

/// Selects the lock discipline for a file opened in `mode`.
pub fn lock_kind_for(mode: OpenMode) -> (r: LockKind)
    ensures
        r == (if replaces_contents(mode) { LockKind::Exclusive } else { LockKind::ReaderWriter }),
{
    match mode {
        OpenMode::TruncateWrite | OpenMode::TruncateReadWrite => LockKind::Exclusive,
        _ => LockKind::ReaderWriter,
    }
}

/// The generation that follows `g`; never 0, which means "durable".
pub open spec fn next_generation(g: u64) -> u64 {
    if g == u64::MAX {
        1
    } else {
        (g + 1) as u64
    }
}

/// The bytes of `b` that lie in `[pos, pos + len)`, cut at the end of `b`.
pub open spec fn byte_range(b: Seq<u8>, pos: int, len: int) -> Seq<u8> {
    let start = if pos < b.len() { pos } else { b.len() as int };
    let end = if pos + len < b.len() { pos + len } else { b.len() as int };
    b.subrange(start, end)
}

/// The versioned write buffer of a replace-mode handle: the latest staged
/// bytes and their generation, 0 once they are known to be durable.
#[derive(Debug)]
pub struct WriteBuffer {
    pub bytes: Vec<u8>,
    pub generation: u64,
}

/// The mathematical state of a write buffer.
pub struct BufferView {
    pub bytes: Seq<u8>,
    pub generation: u64,
}

impl View for WriteBuffer {
    type V = BufferView;

    open spec fn view(&self) -> BufferView {
        BufferView { bytes: self.bytes@, generation: self.generation }
    }
}

/// The buffer after `bytes` are staged on top of `s`.
pub open spec fn staged(s: BufferView, bytes: Seq<u8>) -> BufferView {
    BufferView { bytes, generation: next_generation(s.generation) }
}

/// The buffer after a flush of generation `done` succeeded on `s`.
pub open spec fn flushed(s: BufferView, done: u64) -> BufferView {
    BufferView { bytes: s.bytes, generation: if s.generation == done { 0 } else { s.generation } }
}

/// What a read must do once its lock discipline is known.
#[derive(Debug)]
pub enum ReadStep {
    /// Return an empty result at once: nothing was asked for.
    Empty,
    /// Return these staged bytes: the file is stale relative to them.
    Staged(Vec<u8>),
    /// Read the raw file.
    Raw,
}

/// What a write must do first.
#[derive(Clone, Copy, Debug, PartialEq, Eq, Structural)]
pub enum WriteStep {
    /// Report success with 0 bytes written at once: nothing was given.
    Empty,
    /// Take the writer lock and write the raw file directly.
    Direct,
    /// Stage the bytes in the write buffer, then take the serializer.
    Stage,
}

/// What an exclusive-mode write does once it holds the serializer.
#[derive(Debug)]
pub enum FlushStep {
    /// A newer write already made the buffer durable: report this length.
    AlreadyDurable(usize),
    /// Write these bytes to the file; they carry this generation.
    Flush(Vec<u8>, u64),
}

impl WriteBuffer {
    /// An empty, durable buffer.
    pub fn new() -> (r: WriteBuffer)
        ensures
            r.bytes@.len() == 0,
            r.generation == 0,
    {
        WriteBuffer { bytes: Vec::new(), generation: 0 }
    }

    /// A copy of the buffer, taken without the serializer.
    pub fn snapshot(&self) -> (r: WriteBuffer)
        ensures
            r@ == self@,
    {
        WriteBuffer { bytes: copy_bytes(self.bytes.as_slice()), generation: self.generation }
    }

    /// True when staged bytes are not yet known to be durable.
    pub fn is_pending(&self) -> (r: bool)
        ensures
            r == (self.generation != 0),
    {
        self.generation != 0
    }

    /// Stages `bytes` as the latest contents and returns their generation.
    pub fn stage(&mut self, bytes: Vec<u8>) -> (r: u64)
        ensures
            final(self)@ == staged(old(self)@, bytes@),
            r == final(self).generation,
            r != 0,
    {
        self.bytes = bytes;
        self.generation = if self.generation == u64::MAX {
            1
        } else {
            self.generation + 1
        };
        self.generation
    }

    /// Decides, under the serializer, whether the staged bytes still need a flush.
    pub fn begin_flush(&self) -> (r: FlushStep)
        ensures
            self.generation == 0 ==> r == FlushStep::AlreadyDurable(self.bytes@.len() as usize),
            self.generation != 0 ==> (match r {
                FlushStep::Flush(b, g) => b@ == self.bytes@ && g == self.generation,
                _ => false,
            }),
    {
        if self.generation == 0 {
            FlushStep::AlreadyDurable(self.bytes.len())
        } else {
            FlushStep::Flush(copy_bytes(self.bytes.as_slice()), self.generation)
        }
    }

    /// Records that the flush of generation `done` succeeded: the buffer
    /// becomes durable only if no newer write has been staged since.
    pub fn complete_flush(&mut self, done: u64)
        ensures
            final(self)@ == flushed(old(self)@, done),
    {
        if self.generation == done {
            self.generation = 0;
        }
    }

    /// The staged bytes in `[pos, pos + len)`, when a write is pending.
    pub fn staged_read(&self, pos: u64, len: usize) -> (r: Option<Vec<u8>>)
        ensures
            self.generation == 0 ==> r.is_none(),
            self.generation != 0 ==> r.is_some() && r.unwrap()@ == byte_range(
                self.bytes@,
                pos as int,
                len as int,
            ),
    {
        if self.generation == 0 {
            return None;
        }
        let n = self.bytes.len();
        let start: usize = if (pos as u128) < (n as u128) { pos as usize } else { n };
        let end: usize = if (pos as u128) + (len as u128) < (n as u128) {
            (pos as usize) + len
        } else {
            n
        };
        let mut out: Vec<u8> = Vec::new();
        let mut i: usize = start;
        while i < end
            invariant
                start <= i <= end <= n,
                n == self.bytes@.len(),
                out@ == self.bytes@.subrange(start as int, i as int),
            decreases end - i,
        {
            out.push(self.bytes[i]);
            proof {
                assert(self.bytes@.subrange(start as int, i + 1 as int) =~= self.bytes@.subrange(
                    start as int,
                    i as int,
                ).push(self.bytes@[i as int]));
            }
            i = i + 1;
        }
        Some(out)
    }
}

/// Decides how a read of `len` bytes at `pos` proceeds on a handle of
/// discipline `kind`, given a snapshot of its write buffer.
pub fn read_step(kind: LockKind, snapshot: &WriteBuffer, pos: u64, len: usize) -> (r: ReadStep)
    ensures
        len == 0 ==> r == ReadStep::Empty,
        len != 0 && kind == LockKind::ReaderWriter ==> r == ReadStep::Raw,
        len != 0 && kind == LockKind::Exclusive && snapshot.generation == 0 ==> r == ReadStep::Raw,
        len != 0 && kind == LockKind::Exclusive && snapshot.generation != 0 ==> (match r {
            ReadStep::Staged(b) => b@ == byte_range(snapshot.bytes@, pos as int, len as int),
            _ => false,
        }),
{
    if len == 0 {
        return ReadStep::Empty;
    }
    match kind {
        LockKind::ReaderWriter => ReadStep::Raw,
        LockKind::Exclusive => match snapshot.staged_read(pos, len) {
            Some(b) => ReadStep::Staged(b),
            None => ReadStep::Raw,
        },
    }
}

/// Decides how a write of `len` bytes proceeds on a handle of discipline `kind`.
pub fn write_step(kind: LockKind, len: usize) -> (r: WriteStep)
    ensures
        len == 0 ==> r == WriteStep::Empty,
        len != 0 && kind == LockKind::ReaderWriter ==> r == WriteStep::Direct,
        len != 0 && kind == LockKind::Exclusive ==> r == WriteStep::Stage,
{
    if len == 0 {
        WriteStep::Empty
    } else {
        match kind {
            LockKind::ReaderWriter => WriteStep::Direct,
            LockKind::Exclusive => WriteStep::Stage,
        }
    }
}

/// A staged generation is never 0, and differs from the one before it.
pub proof fn lemma_next_generation(g: u64)
    ensures
        next_generation(g) != 0,
        next_generation(g) != g,
{
}

/// Two writes staged one after the other on a replace-mode handle: when the
/// first one's flush, of the older generation, completes late, the buffer
/// keeps the second write's bytes and stays pending under the second
/// generation; so a later read is served the second write's bytes. When
/// instead the flush carries the second generation, the buffer becomes
/// durable with the second write's bytes and the second write has nothing
/// left to flush.
pub proof fn lemma_superseded_flush_keeps_pending(s: BufferView, w1: Seq<u8>, w2: Seq<u8>)
    ensures
        ({
            let s1 = staged(s, w1);
            let s2 = staged(s1, w2);
            let late = flushed(s2, s1.generation);
            let current = flushed(s2, s2.generation);
            &&& s2.generation != s1.generation
            &&& late.generation == s2.generation
            &&& late.generation != 0
            &&& late.bytes == w2
            &&& current.generation == 0
            &&& current.bytes == w2
        }),
{
    lemma_next_generation(s.generation);
    lemma_next_generation(next_generation(s.generation));
}

} // verus!
