//! Counting what is read and written.
use crate::stream::Concurrency;
use vstd::prelude::*;

verus! {

/// Returns how many workers there are: as many as were asked for, or else as many as the
/// machine can run.
pub fn resolve_threads(opt: Option<Concurrency>, available: Concurrency) -> (r: usize)
    ensures
        r == match opt {
            Some(c) => c.count(),
            None => available.count(),
        },
        r >= 1,
{
    match opt {
        Some(c) => c.get(),
        None => available.get(),
    }
}

/// A source, and how many bytes were read from it.
#[derive(Debug)]
pub struct CountingReader<R> {
    inner: R,
    /// How many bytes were read.
    pub bytes: u64,
}

impl<R> CountingReader<R> {
    /// The source.
    pub closed spec fn source(&self) -> R {
        self.inner
    }

    /// How many bytes were counted.
    pub closed spec fn count(&self) -> u64 {
        self.bytes
    }

    /// A source from which nothing was read.
    pub fn new(r: R) -> (s: Self)
        ensures
            s.source() == r,
            s.count() == 0,
    {
        CountingReader { inner: r, bytes: 0 }
    }

    /// Returns the source.
    pub fn get_mut(&mut self) -> (r: &mut R)
        ensures
            *r == old(self).source(),
            final(self).source() == *final(r),
            final(self).count() == old(self).count(),
    {
        &mut self.inner
    }

    /// Counts `n` bytes that were read.
    pub fn record(&mut self, n: usize)
        ensures
            final(self).source() == old(self).source(),
            final(self).count() == (old(self).count() + n) % 0x1_0000_0000_0000_0000,
    {
        self.bytes = self.bytes.wrapping_add(n as u64);
    }
}

/// A sink, and how many bytes were written to it.
#[derive(Debug)]
pub struct CountingWriter<W> {
    inner: W,
    /// How many bytes were written.
    pub bytes: u64,
}

impl<W> CountingWriter<W> {
    /// The sink.
    pub closed spec fn sink(&self) -> W {
        self.inner
    }

    /// How many bytes were counted.
    pub closed spec fn count(&self) -> u64 {
        self.bytes
    }

    /// A sink to which nothing was written.
    pub fn new(w: W) -> (s: Self)
        ensures
            s.sink() == w,
            s.count() == 0,
    {
        CountingWriter { inner: w, bytes: 0 }
    }

    /// Returns the sink.
    pub fn get_mut(&mut self) -> (r: &mut W)
        ensures
            *r == old(self).sink(),
            final(self).sink() == *final(r),
            final(self).count() == old(self).count(),
    {
        &mut self.inner
    }

    /// Counts `n` bytes that were written.
    pub fn record(&mut self, n: usize)
        ensures
            final(self).sink() == old(self).sink(),
            final(self).count() == (old(self).count() + n) % 0x1_0000_0000_0000_0000,
    {
        self.bytes = self.bytes.wrapping_add(n as u64);
    }
}

} // verus!
