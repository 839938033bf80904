//! Files of the simulated file system: bytes in memory, read and written at an offset.
use vstd::prelude::*;

verus! {

/// Why a file operation was refused.
#[derive(Debug, Clone, Copy, PartialEq, Eq, Structural)]
pub enum FileError {
    /// The file was opened for reading only.
    ReadOnly,
}

/// An open file: its contents, and whether it was opened to be written.
pub struct File {
    data: Vec<u8>,
    can_write: bool,
}

/// What reading `n` bytes at `offset` gives: as many as there are from there on, up to `n`.
pub open spec fn read_spec(data: Seq<u8>, offset: nat, n: nat) -> Seq<u8> {
    let end: int = if offset + n < data.len() { (offset + n) as int } else { data.len() as int };
    data.subrange(offset as int, end)
}

/// The contents after writing `buf` at `offset`: the bytes there overwritten, and the file
/// grown by what runs past its end.
pub open spec fn write_spec(data: Seq<u8>, buf: Seq<u8>, offset: nat) -> Seq<u8> {
    let end: int = (offset + buf.len()) as int;
    data.take(offset as int) + buf + if end < data.len() {
        data.skip(end)
    } else {
        seq![]
    }
}

/// The contents cut or padded with zeros to `size` bytes.
pub open spec fn resized(data: Seq<u8>, size: nat) -> Seq<u8> {
    if size <= data.len() {
        data.take(size as int)
    } else {
        data + Seq::new((size - data.len()) as nat, |i: int| 0u8)
    }
}

impl File {
    /// The file's contents.
    pub closed spec fn contents(&self) -> Seq<u8> {
        self.data@
    }

    /// Whether the file was opened to be written.
    pub closed spec fn writable(&self) -> bool {
        self.can_write
    }

    /// A file holding `data`, open for writing if `can_write`.
    pub fn new(data: Vec<u8>, can_write: bool) -> (f: Self)
        ensures
            f.contents() == data@,
            f.writable() == can_write,
    {
        File { data, can_write }
    }

    /// The file's bytes.
    pub fn bytes(&self) -> (b: &[u8])
        ensures
            b@ == self.contents(),
    {
        self.data.as_slice()
    }

    /// How long the file is.
    pub fn len(&self) -> (n: usize)
        ensures
            n == self.contents().len(),
    {
        self.data.len()
    }

    /// Read into `buf` from `offset`, which must not be past the end; hands back how many bytes
    /// were read, which is fewer than asked for only at the end of the file.
    pub fn read_at(&self, buf: &mut [u8], offset: u64) -> (n: usize)
        requires
            offset <= self.contents().len(),
        ensures
            n == read_spec(self.contents(), offset as nat, old(buf)@.len()).len(),
            final(buf)@.len() == old(buf)@.len(),
            final(buf)@.take(n as int) == read_spec(self.contents(), offset as nat, old(buf)@.len()),
            final(buf)@.skip(n as int) == old(buf)@.skip(n as int),
    {
        let size = self.data.len();
        assert(offset <= size);
        let start = offset as usize;
        assert(start == offset);
        let end: usize = if buf.len() < self.data.len() - start {
            start + buf.len()
        } else {
            self.data.len()
        };
        let n = end - start;
        let mut k: usize = 0;
        while k < n
            invariant
                k <= n,
                start + n == end,
                end <= self.data@.len(),
                buf@.len() == old(buf)@.len(),
                n <= buf@.len(),
                forall|j: int| 0 <= j < k ==> buf@[j] == self.data@[start + j],
                forall|j: int| k <= j < buf@.len() ==> buf@[j] == old(buf)@[j],
            decreases n - k,
        {
            buf[k] = self.data[start + k];
            k = k + 1;
        }
        assert(buf@.take(n as int) =~= read_spec(self.data@, offset as nat, old(buf)@.len()));
        assert(buf@.skip(n as int) =~= old(buf)@.skip(n as int));
        n
    }

    /// Write all of `buf` at `offset`, which must not be past the end, growing the file as far
    /// as it runs past its end. A file open for reading only is left as it was.
    pub fn write_all_at(&mut self, buf: &[u8], offset: u64) -> (r: Result<(), FileError>)
        requires
            offset <= old(self).contents().len(),
        ensures
            final(self).writable() == old(self).writable(),
            r is Err <==> !old(self).writable(),
            r is Err ==> r == Err::<(), FileError>(FileError::ReadOnly) && final(self).contents() == old(self).contents(),
            r is Ok ==> final(self).contents() == write_spec(old(self).contents(), buf@, offset as nat),
    {
        if !self.can_write {
            return Err(FileError::ReadOnly);
        }
        let ghost before = self.data@;
        let size = self.data.len();
        assert(offset <= size);
        let start = offset as usize;
        assert(start == offset);
        let mut k: usize = 0;
        while k < buf.len()
            invariant
                start <= before.len(),
                k <= buf@.len(),
                self.can_write == old(self).can_write,
                self.data@.len() == if start + k < before.len() { before.len() as int } else { start + k },
                forall|j: int| 0 <= j < start ==> self.data@[j] == before[j],
                forall|j: int| 0 <= j < k ==> self.data@[start + j] == buf@[j],
                forall|j: int| start + k <= j < self.data@.len() ==> self.data@[j] == before[j],
            decreases buf@.len() - k,
        {
            if k < self.data.len() - start {
                self.data.set(start + k, buf[k]);
            } else {
                self.data.push(buf[k]);
            }
            k = k + 1;
        }
        proof {
            let w = write_spec(before, buf@, offset as nat);
            assert(w.len() == self.data@.len());
            assert forall|j: int| 0 <= j < w.len() implies w[j] == self.data@[j] by {
                if j < start {
                } else if j < start + buf@.len() {
                    assert(w[j] == buf@[j - start]);
                } else {
                    assert(w[j] == before[j]);
                }
            }
            assert(self.data@ =~= w);
        }
        Ok(())
    }

    /// Cut the file, or pad it with zeros, to `size` bytes.
    pub fn set_len(&mut self, size: u64)
        requires
            size <= usize::MAX,
        ensures
            final(self).writable() == old(self).writable(),
            final(self).contents() == resized(old(self).contents(), size as nat),
    {
        let size = size as usize;
        let ghost before = self.data@;
        if size <= self.data.len() {
            self.data.truncate(size);
            assert(self.data@ =~= resized(before, size as nat));
        } else {
            while self.data.len() < size
                invariant
                    self.can_write == old(self).can_write,
                    before.len() <= self.data@.len() <= size,
                    self.data@.take(before.len() as int) == before,
                    forall|j: int| before.len() <= j < self.data@.len() ==> self.data@[j] == 0u8,
                decreases size - self.data@.len(),
            {
                let ghost now = self.data@;
                self.data.push(0);
                assert(self.data@.take(before.len() as int) =~= now.take(before.len() as int));
            }
            assert(self.data@ =~= resized(before, size as nat));
        }
    }
}

/// What a read gives back of a write: reading as many bytes as were written, where they were
/// written, gives back exactly what was written.
pub proof fn lemma_read_back_write(data: Seq<u8>, buf: Seq<u8>, offset: nat)
    requires
        offset <= data.len(),
    ensures
        read_spec(write_spec(data, buf, offset), offset, buf.len()) == buf,
        write_spec(data, buf, offset).len() >= offset + buf.len(),
{
    let after = write_spec(data, buf, offset);
    assert(after.subrange(offset as int, (offset + buf.len()) as int) =~= buf);
}

/// Writing leaves the bytes before the offset, and those past what was written, as they were.
pub proof fn lemma_write_keeps_the_rest(data: Seq<u8>, buf: Seq<u8>, offset: nat)
    requires
        offset <= data.len(),
    ensures
        write_spec(data, buf, offset).take(offset as int) == data.take(offset as int),
        offset + buf.len() <= data.len() ==> write_spec(data, buf, offset).len() == data.len()
            && write_spec(data, buf, offset).skip((offset + buf.len()) as int) == data.skip((offset + buf.len()) as int),
{
    let after = write_spec(data, buf, offset);
    assert(after.take(offset as int) =~= data.take(offset as int));
    if offset + buf.len() < data.len() {
        assert(after.skip((offset + buf.len()) as int) =~= data.skip((offset + buf.len()) as int));
    } else if offset + buf.len() == data.len() {
        assert(after.skip((offset + buf.len()) as int) =~= data.skip((offset + buf.len()) as int));
    }
}

} // verus!
