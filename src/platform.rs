use vstd::prelude::*;

verus! {

/// A key as a terminal front end reports it.
#[derive(Clone, Copy, Debug, PartialEq, Eq, Structural)]
pub enum Key {
    NoKey,
    Backspace,
    Enter,
    Left,
    Right,
    Up,
    Down,
    Home,
    End,
    PageUp,
    PageDown,
    Tab,
    Delete,
    F(u8),
    Char(char),
    Ctrl(char),
    Alt(char),
    Esc,
}

/// The index of a connected client.
#[derive(Clone, Copy, Debug, PartialEq, Eq, Structural)]
pub struct ClientHandle(pub u8);

/// The index of a child process in a process table of its kind.
#[derive(Clone, Copy, Debug, PartialEq, Eq, Structural)]
pub struct ProcessIndex(pub u32);

/// What a child process was spawned for.
#[derive(Clone, Copy, Debug, PartialEq, Eq, Structural)]
pub enum ProcessTag {
    Buffer(ProcessIndex),
    FindFiles,
    PickerEntries,
    Lsp(u8),
    Ignored,
}

/// The slot of a running child process.
#[derive(Clone, Copy, Debug, PartialEq, Eq, Structural)]
pub struct ProcessHandle(pub u8);

/// A buffer of bytes lent out by a `BufPool`.
pub struct PooledBuf(Vec<u8>);

impl View for PooledBuf {
    type V = Seq<u8>;

    closed spec fn view(&self) -> Seq<u8> {
        self.0@
    }
}

impl PooledBuf {
    pub fn as_bytes(&self) -> (r: &[u8])
        ensures
            r@ == self@,
    {
        self.0.as_slice()
    }

    /// Replaces the contents with `bytes`.
    pub fn write(&mut self, bytes: &[u8])
        ensures
            final(self)@ == bytes@,
    {
        self.0.clear();
        let mut i: usize = 0;
        while i < bytes.len()
            invariant
                i <= bytes@.len(),
                self.0@ == bytes@.subrange(0, i as int),
            decreases bytes@.len() - i,
        {
            self.0.push(bytes[i]);
            i = i + 1;
            assert(self.0@ =~= bytes@.subrange(0, i as int));
        }
        assert(bytes@.subrange(0, bytes@.len() as int) =~= bytes@);
    }

    /// Makes the contents exactly `len` bytes long, keeping those that fit
    /// and filling the rest with zeros.
    pub fn write_with_len(&mut self, len: usize)
        ensures
            final(self)@.len() == len,
            forall|i: int| 0 <= i < len && i < old(self)@.len() ==> final(self)@[i] == old(self)@[i],
            forall|i: int| old(self)@.len() <= i < len ==> final(self)@[i] == 0,
    {
        if self.0.len() > len {
            self.0.truncate(len);
        } else {
            while self.0.len() < len
                invariant
                    self.0@.len() <= len,
                    self.0@.len() >= old(self)@.len(),
                    forall|i: int| 0 <= i < old(self)@.len() ==> self.0@[i] == old(self)@[i],
                    forall|i: int| old(self)@.len() <= i < self.0@.len() ==> self.0@[i] == 0,
                decreases len - self.0@.len(),
            {
                self.0.push(0);
            }
        }
    }
}

/// Byte buffers kept for reuse; each buffer lent out comes back here.
pub struct BufPool {
    pool: Vec<PooledBuf>,
}

impl BufPool {
    pub fn new() -> (r: BufPool)
        ensures
            r.len() == 0,
    {
        BufPool { pool: Vec::new() }
    }

    /// The number of buffers held for reuse.
    pub closed spec fn len(&self) -> nat {
        self.pool@.len()
    }

    /// A buffer, taken from the pool where it holds one.
    pub fn acquire(&mut self) -> (r: PooledBuf)
        ensures
            old(self).len() == 0 ==> final(self).len() == 0 && r@.len() == 0,
            old(self).len() > 0 ==> final(self).len() == old(self).len() - 1,
    {
        match self.pool.pop() {
            Some(buf) => buf,
            None => PooledBuf(Vec::new()),
        }
    }

    /// Takes buffer `buf` back for reuse.
    pub fn release(&mut self, buf: PooledBuf)
        ensures
            final(self).len() == old(self).len() + 1,
    {
        self.pool.push(buf);
    }
}

/// An event the platform layer hands to the editor.
#[allow(inconsistent_fields)]
pub enum PlatformEvent {
    Idle,
    ConnectionOpen { handle: ClientHandle },
    ConnectionClose { handle: ClientHandle },
    ConnectionOutput { handle: ClientHandle, buf: PooledBuf },
    ProcessSpawned { tag: ProcessTag, handle: ProcessHandle },
    ProcessOutput { tag: ProcessTag, buf: PooledBuf },
    ProcessExit { tag: ProcessTag },
}

} // verus!
