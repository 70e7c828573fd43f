use vstd::prelude::*;

verus! {

/// Reusable byte windows for reading a source: a primary window for the main
/// reads, an overflow window that grows on demand and never shrinks, and a
/// scratch buffer that joins a primary suffix with an overflow prefix.
pub struct BufferManager {
    main_buffer: Vec<u8>,
    extra_buffer: Vec<u8>,
    temp_buffer: Vec<u8>,
}

impl View for BufferManager {
    /// (primary window, overflow window, scratch buffer)
    type V = (Seq<u8>, Seq<u8>, Seq<u8>);

    closed spec fn view(&self) -> (Seq<u8>, Seq<u8>, Seq<u8>) {
        (self.main_buffer@, self.extra_buffer@, self.temp_buffer@)
    }
}

/// `dst` with its first `src.len()` bytes replaced by `src`.
pub open spec fn overwrite_prefix(dst: Seq<u8>, src: Seq<u8>) -> Seq<u8> {
    src + dst.skip(src.len() as int)
}

fn copy_into(dst: &mut Vec<u8>, src: &[u8])
    requires
        src@.len() <= old(dst)@.len(),
    ensures
        final(dst)@ == overwrite_prefix(old(dst)@, src@),
{
    let mut i: usize = 0;
    while i < src.len()
        invariant
            i <= src@.len(),
            src@.len() <= old(dst)@.len(),
            dst@ == src@.take(i as int) + old(dst)@.skip(i as int),
        decreases src@.len() - i,
    {
        dst.set(i, src[i]);
        assert(dst@ =~= src@.take(i + 1) + old(dst)@.skip(i + 1));
        i = i + 1;
    }
    assert(src@.take(i as int) =~= src@);
}

impl BufferManager {
    /// A primary window of `buffer_size` bytes and an overflow window of
    /// `max_extra_size` bytes, both zeroed, and an empty scratch buffer.
    pub fn new(buffer_size: usize, max_extra_size: usize) -> (r: Self)
        ensures
            r@.0 == Seq::new(buffer_size as nat, |i: int| 0u8),
            r@.1 == Seq::new(max_extra_size as nat, |i: int| 0u8),
            r@.2 == Seq::<u8>::empty(),
    {
        let r = BufferManager {
            main_buffer: vec![0u8; buffer_size],
            extra_buffer: vec![0u8; max_extra_size],
            temp_buffer: Vec::new(),
        };
        assert(r.main_buffer@ =~= Seq::new(buffer_size as nat, |i: int| 0u8));
        assert(r.extra_buffer@ =~= Seq::new(max_extra_size as nat, |i: int| 0u8));
        r
    }

    /// The primary window, for filling in place.
    pub fn get_main_buffer(&mut self) -> (r: &mut Vec<u8>)
        ensures
            r@ == old(self)@.0,
            final(self)@ == (final(r)@, old(self)@.1, old(self)@.2),
    {
        &mut self.main_buffer
    }

    /// The overflow window, first grown with zeros to `needed_size` bytes if
    /// it is shorter; it never shrinks.
    pub fn get_extra_buffer(&mut self, needed_size: usize) -> (r: &mut Vec<u8>)
        ensures
            r@ == grown(old(self)@.1, needed_size as nat),
            final(self)@ == (old(self)@.0, final(r)@, old(self)@.2),
    {
        self.grow_extra(needed_size);
        &mut self.extra_buffer
    }

    fn grow_extra(&mut self, needed_size: usize)
        ensures
            final(self)@ == (old(self)@.0, grown(old(self)@.1, needed_size as nat), old(self)@.2),
    {
        if self.extra_buffer.len() < needed_size {
            self.extra_buffer.resize(needed_size, 0u8);
            assert(self.extra_buffer@ =~= grown(old(self)@.1, needed_size as nat));
        }
    }

    /// Reads from a source whose remaining bytes are `source`: the primary
    /// window is filled from its start with as many as fit, and their number
    /// is returned. The rest of the window keeps its old bytes.
    pub fn read_into_main(&mut self, source: &[u8]) -> (n: usize)
        ensures
            n == if source@.len() < old(self)@.0.len() {
                source@.len()
            } else {
                old(self)@.0.len()
            },
            final(self)@ == (
                overwrite_prefix(old(self)@.0, source@.take(n as int)),
                old(self)@.1,
                old(self)@.2,
            ),
    {
        let n = if source.len() < self.main_buffer.len() {
            source.len()
        } else {
            self.main_buffer.len()
        };
        copy_into(&mut self.main_buffer, &source[0..n]);
        n
    }

    /// Reads at most `size` bytes from a source whose remaining bytes are
    /// `source` into the start of the overflow window, which is grown to
    /// `size` first; returns their number.
    pub fn read_into_extra(&mut self, source: &[u8], size: usize) -> (n: usize)
        ensures
            n == if source@.len() < size {
                source@.len()
            } else {
                size as nat
            },
            final(self)@ == (
                old(self)@.0,
                overwrite_prefix(grown(old(self)@.1, size as nat), source@.take(n as int)),
                old(self)@.2,
            ),
    {
        self.grow_extra(size);
        let n = if source.len() < size {
            source.len()
        } else {
            size
        };
        copy_into(&mut self.extra_buffer, &source[0..n]);
        n
    }

    /// Joins primary bytes `[main_start, main_end)` with the first
    /// `extra_size` overflow bytes in the scratch buffer and returns them.
    pub fn combine_buffers(&mut self, main_start: usize, main_end: usize, extra_size: usize) -> (r:
        &[u8])
        requires
            main_start <= main_end <= old(self)@.0.len(),
            extra_size <= old(self)@.1.len(),
        ensures
            r@ == old(self)@.0.subrange(main_start as int, main_end as int) + old(self)@.1.take(
                extra_size as int,
            ),
            final(self)@ == (old(self)@.0, old(self)@.1, r@),
    {
        self.temp_buffer.clear();
        let mut i: usize = main_start;
        while i < main_end
            invariant
                main_start <= i <= main_end <= self.main_buffer@.len(),
                self.main_buffer@ == old(self)@.0,
                self.extra_buffer@ == old(self)@.1,
                self.temp_buffer@ == self.main_buffer@.subrange(main_start as int, i as int),
            decreases main_end - i,
        {
            self.temp_buffer.push(self.main_buffer[i]);
            assert(self.temp_buffer@ =~= self.main_buffer@.subrange(main_start as int, i + 1));
            i = i + 1;
        }
        let mut j: usize = 0;
        while j < extra_size
            invariant
                j <= extra_size <= self.extra_buffer@.len(),
                self.main_buffer@ == old(self)@.0,
                self.extra_buffer@ == old(self)@.1,
                self.temp_buffer@ == self.main_buffer@.subrange(main_start as int, main_end as int)
                    + self.extra_buffer@.take(j as int),
            decreases extra_size - j,
        {
            self.temp_buffer.push(self.extra_buffer[j]);
            assert(self.temp_buffer@ =~= self.main_buffer@.subrange(
                main_start as int,
                main_end as int,
            ) + self.extra_buffer@.take(j + 1));
            j = j + 1;
        }
        self.temp_buffer.as_slice()
    }

    /// Primary bytes `[start, end)`.
    pub fn get_main_slice(&self, start: usize, end: usize) -> (r: &[u8])
        requires
            start <= end <= self@.0.len(),
        ensures
            r@ == self@.0.subrange(start as int, end as int),
    {
        &self.main_buffer.as_slice()[start..end]
    }

    /// The first `size` overflow bytes.
    pub fn get_extra_slice(&self, size: usize) -> (r: &[u8])
        requires
            size <= self@.1.len(),
        ensures
            r@ == self@.1.take(size as int),
    {
        &self.extra_buffer.as_slice()[0..size]
    }
}

/// `s` grown with zeros to `k` bytes if it is shorter.
pub open spec fn grown(s: Seq<u8>, k: nat) -> Seq<u8> {
    if s.len() < k {
        s + Seq::new((k - s.len()) as nat, |i: int| 0u8)
    } else {
        s
    }
}

} // verus!
