use vstd::arithmetic::div_mod::{lemma_fundamental_div_mod_converse_mod, lemma_small_mod};
use vstd::prelude::*;

verus! {

/// A fixed-capacity circular byte buffer over a logically unbounded stream.
///
/// Bytes are addressed relative to a moving logical start (the oldest byte
/// still held); writes past the capacity evict the oldest bytes first. Both
/// the compressor (search window plus lookahead) and the decompressor (the
/// dictionary of recently emitted output) are backed by one of these.
pub struct RingBuffer {
    buffer: Vec<u8>,
    at: usize,
    size: usize,
}

/// `x % c` spelled without `%`, for an index that wraps around at most once.
proof fn lemma_wrap_once(x: int, c: int)
    requires
        1 <= c,
        0 <= x < 2 * c,
    ensures
        x % c == if x < c {
            x
        } else {
            x - c
        },
{
    if x < c {
        lemma_small_mod(x as nat, c as nat);
    } else {
        assert(x == 1 * c + (x - c)) by (nonlinear_arith);
        lemma_fundamental_div_mod_converse_mod(x, c, 1, x - c);
    }
}

/// How many bytes of an incoming slice of length `len` a wrapping write
/// takes: everything, up to the buffer's capacity.
pub open spec fn write_count(cap: int, len: int) -> int {
    if len <= cap {
        len
    } else {
        cap
    }
}

/// How many of the oldest bytes a wrapping write of `tw` bytes evicts from a
/// buffer of capacity `cap` currently holding `size` bytes.
pub open spec fn evict_count(cap: int, size: int, tw: int) -> int {
    if tw <= cap - size {
        0
    } else {
        tw - (cap - size)
    }
}

impl View for RingBuffer {
    type V = Seq<u8>;

    /// The logical contents: the held bytes, oldest first.
    closed spec fn view(&self) -> Seq<u8> {
        Seq::new(self.size as nat, |i: int| self.cell(i))
    }
}

impl RingBuffer {
    /// The byte at logical offset `i`, unwrapped by hand so that the view
    /// needs no modular arithmetic.
    closed spec fn cell(&self, i: int) -> u8 {
        if self.at + i < self.buffer.len() {
            self.buffer@[self.at + i]
        } else {
            self.buffer@[self.at + i - self.buffer.len()]
        }
    }

    pub closed spec fn capacity(&self) -> int {
        self.buffer.len() as int
    }

    pub closed spec fn wf(&self) -> bool {
        &&& 1 <= self.buffer.len()
        &&& self.buffer.len() <= usize::MAX / 2
        &&& self.at < self.buffer.len()
        &&& self.size <= self.buffer.len()
    }

    /// An empty buffer of the given capacity.
    pub fn new(capacity: usize) -> (r: RingBuffer)
        requires
            1 <= capacity,
            capacity <= usize::MAX / 2,
        ensures
            r.wf(),
            r.capacity() == capacity,
            r@ == Seq::<u8>::empty(),
    {
        let mut buffer: Vec<u8> = Vec::new();
        while buffer.len() < capacity
            invariant
                buffer.len() <= capacity,
            decreases capacity - buffer.len(),
        {
            buffer.push(0);
        }
        let r = RingBuffer { buffer, at: 0, size: 0 };
        proof {
            assert(r@ =~= Seq::<u8>::empty());
        }
        r
    }

    /// How many bytes are currently held.
    pub fn len(&self) -> (r: usize)
        ensures
            r == self@.len(),
    {
        self.size
    }

    /// The slot of the backing storage that the next appended byte lands in.
    pub closed spec fn spec_write_position(&self) -> int {
        (self.at + self.size) % (self.buffer.len() as int)
    }

    pub fn write_position(&self) -> (r: usize)
        requires
            self.wf(),
        ensures
            r == self.spec_write_position(),
    {
        (self.at + self.size) % self.buffer.len()
    }

    /// The byte at logical offset `i` from the oldest held byte.
    pub fn index(&self, i: usize) -> (r: u8)
        requires
            self.wf(),
            i < self@.len(),
        ensures
            r == self@[i as int],
    {
        let c = self.buffer.len();
        let j = (self.at + i) % c;
        proof {
            lemma_wrap_once((self.at + i) as int, c as int);
        }
        self.buffer[j]
    }

    /// Drop everything; the capacity is kept.
    pub fn clear(&mut self)
        requires
            old(self).wf(),
        ensures
            final(self).wf(),
            final(self).capacity() == old(self).capacity(),
            final(self)@ == Seq::<u8>::empty(),
    {
        self.size = 0;
        self.at = 0;
        proof {
            assert(self@ =~= Seq::<u8>::empty());
        }
    }

    /// Append one byte; if the buffer is full, the oldest byte is evicted.
    pub fn wrapping_push(&mut self, v: u8)
        requires
            old(self).wf(),
        ensures
            final(self).wf(),
            final(self).capacity() == old(self).capacity(),
            old(self)@.len() < old(self).capacity() ==> final(self)@ == old(self)@.push(v),
            old(self)@.len() == old(self).capacity() ==> final(self)@ == old(self)@.skip(1).push(
                v,
            ),
    {
        let c = self.buffer.len();
        let w = (self.at + self.size) % c;
        proof {
            lemma_wrap_once((self.at + self.size) as int, c as int);
        }
        self.buffer.set(w, v);
        if self.size >= c {
            self.at = if self.at + 1 < c {
                self.at + 1
            } else {
                0
            };
            proof {
                assert forall|i: int| 0 <= i < c - 1 implies self.cell(i) == old(self)@[i
                    + 1] by {}
                assert(self@ =~= old(self)@.skip(1).push(v));
            }
        } else {
            self.size = self.size + 1;
            proof {
                assert forall|i: int| 0 <= i < old(self).size implies self.cell(i) == old(
                    self,
                )@[i] by {}
                assert(self@ =~= old(self)@.push(v));
            }
        }
    }

    /// Drop the `n` oldest bytes (or everything, if fewer are held),
    /// advancing the logical start. Returns how many were dropped.
    pub fn ignore(&mut self, n: usize) -> (r: usize)
        requires
            old(self).wf(),
        ensures
            final(self).wf(),
            final(self).capacity() == old(self).capacity(),
            r == if n <= old(self)@.len() {
                n as int
            } else {
                old(self)@.len() as int
            },
            final(self)@ == old(self)@.skip(r as int),
    {
        if n > self.size {
            let r = self.size;
            self.size = 0;
            self.at = 0;
            proof {
                assert(self@ =~= old(self)@.skip(r as int));
            }
            r
        } else {
            let c = self.buffer.len();
            let a2 = (self.at + n) % c;
            proof {
                lemma_wrap_once((self.at + n) as int, c as int);
            }
            self.at = a2;
            self.size = self.size - n;
            proof {
                assert forall|i: int| 0 <= i < self.size implies self.cell(i) == old(self)@[n
                    + i] by {}
                assert(self@ =~= old(self)@.skip(n as int));
            }
            n
        }
    }

    /// Append up to `bytes.len()` bytes (no more than the capacity), evicting
    /// the oldest bytes as needed. Returns how many bytes were evicted.
    pub fn wrapping_write(&mut self, bytes: &[u8]) -> (r: usize)
        requires
            old(self).wf(),
        ensures
            final(self).wf(),
            final(self).capacity() == old(self).capacity(),
            r == evict_count(
                old(self).capacity(),
                old(self)@.len() as int,
                write_count(old(self).capacity(), bytes@.len() as int),
            ),
            final(self)@ == old(self)@.skip(r as int) + bytes@.take(
                write_count(old(self).capacity(), bytes@.len() as int),
            ),
    {
        let c = self.buffer.len();
        let tw = if bytes.len() <= c {
            bytes.len()
        } else {
            c
        };
        let free = c - self.size;
        let ev = if tw <= free {
            0
        } else {
            tw - free
        };
        let mut k: usize = 0;
        while k < tw
            invariant
                old(self).wf(),
                self.wf(),
                self.capacity() == old(self).capacity(),
                c == self.capacity(),
                tw == write_count(c as int, bytes@.len() as int),
                free == c - old(self)@.len(),
                ev == evict_count(c as int, old(self)@.len() as int, tw as int),
                k <= tw,
                self@ =~= old(self)@.skip(
                    if k <= free {
                        0
                    } else {
                        (k - free) as int
                    },
                ) + bytes@.take(k as int),
            decreases tw - k,
        {
            proof {
                if k <= free {
                    assert(self@.len() == old(self)@.len() + k);
                } else {
                    assert(self@.len() == c);
                }
            }
            self.wrapping_push(bytes[k]);
            proof {
                let pre = if k <= free {
                    0
                } else {
                    (k - free) as int
                };
                let post = if k + 1 <= free {
                    0
                } else {
                    (k + 1 - free) as int
                };
                assert(self@ =~= old(self)@.skip(post) + bytes@.take(k + 1));
            }
            k = k + 1;
        }
        ev
    }

    /// Copy out up to `count` bytes starting at logical offset `start`,
    /// without disturbing the buffer.
    pub fn peak(&self, start: usize, count: usize) -> (r: Vec<u8>)
        requires
            self.wf(),
            start <= self@.len(),
        ensures
            r@.len() == if count <= self@.len() - start {
                count as int
            } else {
                self@.len() - start
            },
            r@ == self@.subrange(start as int, start + r@.len()),
    {
        let avail = self.size - start;
        let n = if count <= avail {
            count
        } else {
            avail
        };
        let mut r: Vec<u8> = Vec::new();
        let mut k: usize = 0;
        while k < n
            invariant
                self.wf(),
                start + n <= self@.len(),
                k <= n,
                r@ =~= self@.subrange(start as int, start + k),
            decreases n - k,
        {
            r.push(self.index(start + k));
            proof {
                assert(r@ =~= self@.subrange(start as int, start + k + 1));
            }
            k = k + 1;
        }
        r
    }

    /// Top the buffer up from `src[from..]`: append as many bytes as fit in
    /// the free space. Returns how many bytes were taken.
    pub fn fill_from_slice(&mut self, src: &Vec<u8>, from: usize) -> (r: usize)
        requires
            old(self).wf(),
            from <= src@.len(),
        ensures
            final(self).wf(),
            final(self).capacity() == old(self).capacity(),
            r == if src@.len() - from <= old(self).capacity() - old(self)@.len() {
                src@.len() - from
            } else {
                old(self).capacity() - old(self)@.len()
            },
            final(self)@ == old(self)@ + src@.subrange(from as int, from + r),
    {
        let free = self.buffer.len() - self.size;
        let src_len = src.len();
        let avail = src_len - from;
        let n = if avail <= free {
            avail
        } else {
            free
        };
        let mut k: usize = 0;
        while k < n
            invariant
                old(self).wf(),
                self.wf(),
                self.capacity() == old(self).capacity(),
                src_len == src@.len(),
                from + n <= src@.len(),
                old(self)@.len() + n <= self.capacity(),
                k <= n,
                self@ =~= old(self)@ + src@.subrange(from as int, from + k),
            decreases n - k,
        {
            self.wrapping_push(src[from + k]);
            proof {
                assert(self@ =~= old(self)@ + src@.subrange(from as int, from + k + 1));
            }
            k = k + 1;
        }
        n
    }
}

} // verus!
