//! An in-memory stand-in for a TCP stream: reads serve a fixed buffer, a
//! write replaces what was last written.
use vstd::prelude::*;

verus! {

/// std's I/O error, named in the signatures of the stream's methods.
#[verifier::external_type_specification]
#[verifier::external_body]
pub struct ExIoError(std::io::Error);

/// A stream whose reads return (a prefix of) `read_data` and whose writes
/// are kept in `write_data`.
pub struct MockTcpStream {
    pub read_data: Vec<u8>,
    pub write_data: Vec<u8>,
}

impl MockTcpStream {
    /// Copies as much of `read_data` as fits into `buf`, from its start, and
    /// reports how many bytes that was. The stream itself is not consumed.
    pub fn read(&mut self, buf: &mut [u8]) -> (r: Result<usize, std::io::Error>)
        ensures
            *final(self) == *old(self),
            r matches Ok(n) && n as int == if old(self).read_data@.len() < old(buf)@.len() {
                old(self).read_data@.len() as int
            } else {
                old(buf)@.len() as int
            },
            final(buf)@.len() == old(buf)@.len(),
            r matches Ok(n) && final(buf)@ == old(self).read_data@.subrange(0, n as int)
                + old(buf)@.subrange(n as int, old(buf)@.len() as int),
    {
        let size: usize = if self.read_data.len() < buf.len() {
            self.read_data.len()
        } else {
            buf.len()
        };
        let mut i: usize = 0;
        while i < size
            invariant
                size <= self.read_data.len(),
                size <= old(buf)@.len(),
                i <= size,
                buf@.len() == old(buf)@.len(),
                forall|j: int| 0 <= j < i ==> buf@[j] == self.read_data@[j],
                forall|j: int| i <= j < buf@.len() ==> buf@[j] == old(buf)@[j],
            decreases size - i,
        {
            buf[i] = self.read_data[i];
            i += 1;
        }
        assert(buf@ =~= self.read_data@.subrange(0, size as int) + old(buf)@.subrange(
            size as int,
            old(buf)@.len() as int,
        ));
        Ok(size)
    }

    /// Keeps `buf` as the written data, replacing what was written before,
    /// and reports that all of it was written.
    pub fn write(&mut self, buf: &[u8]) -> (r: Result<usize, std::io::Error>)
        ensures
            final(self).read_data == old(self).read_data,
            final(self).write_data@ == buf@,
            r matches Ok(n) && n == buf@.len(),
    {
        self.write_data = vstd::slice::slice_to_vec(buf);
        Ok(buf.len())
    }

    /// Nothing is buffered: flushing always succeeds and changes nothing.
    pub fn flush(&mut self) -> (r: Result<(), std::io::Error>)
        ensures
            *final(self) == *old(self),
            r is Ok,
    {
        Ok(())
    }
}

impl std::io::Read for MockTcpStream {
    fn read(&mut self, buf: &mut [u8]) -> std::io::Result<usize> {
        MockTcpStream::read(self, buf)
    }
}

impl std::io::Write for MockTcpStream {
    fn write(&mut self, buf: &[u8]) -> std::io::Result<usize> {
        MockTcpStream::write(self, buf)
    }

    fn flush(&mut self) -> std::io::Result<()> {
        MockTcpStream::flush(self)
    }
}

} // verus!
