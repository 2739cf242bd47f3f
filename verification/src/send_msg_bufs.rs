//! The pool of reply buffers, addressed by 8-bit tokens.
//!
//! A handler takes a buffer from the pool to build its reply; the token
//! rides in the submission's user-data and the buffer is released when the
//! send completes. Released buffers are cached for reuse; `trim` drops the
//! cache on memory pressure.

use vstd::prelude::*;

verus! {

/// An 8-bit token addressing one in-flight reply buffer.
pub type Token = u8;

/// The pool: 256 slots for in-flight replies, plus a cache of spare
/// buffers.
pub struct SendMsgBufs {
    pub bufs: Vec<Option<Vec<u8>>>,
    pub spare: Vec<Vec<u8>>,
}

/// Every token of the pool is backing an in-flight reply: allocation must
/// fail.
pub open spec fn pool_exhausted(bufs: SendMsgBufs) -> bool {
    forall|t: Token| bufs.spec_allocated(t)
}

impl SendMsgBufs {
    pub open spec fn wf(self) -> bool {
        self.bufs@.len() == 256
    }

    /// The token is backing an in-flight reply.
    pub open spec fn spec_allocated(self, t: Token) -> bool {
        self.bufs@[t as int] is Some
    }

    /// The bytes of the in-flight reply behind the token.
    pub open spec fn spec_data(self, t: Token) -> Seq<u8> {
        self.bufs@[t as int]->0@
    }

    /// A fresh pool: nothing in flight, nothing cached.
    pub fn new() -> (r: SendMsgBufs)
        ensures
            r.wf(),
            forall|t: Token| !r.spec_allocated(t),
            r.spare@.len() == 0,
    {
        let mut bufs: Vec<Option<Vec<u8>>> = Vec::new();
        let mut n: usize = 0;
        while n < 256
            invariant
                n <= 256,
                bufs@.len() == n,
                forall|x: int| 0 <= x < n ==> (#[trigger] bufs@[x]) is None,
            decreases 256 - n,
        {
            bufs.push(None);
            n = n + 1;
        }
        SendMsgBufs { bufs, spare: Vec::new() }
    }

    /// Takes a free token for the reply `data`, reusing a cached buffer's
    /// storage when one is spare. Fails exactly when all 256 tokens are in
    /// flight, and then changes nothing.
    pub fn alloc_buf(&mut self, data: Vec<u8>) -> (r: Result<Token, ()>)
        requires
            old(self).wf(),
        ensures
            final(self).wf(),
            r is Err <==> pool_exhausted(*old(self)),
            match r {
                Ok(t) => {
                    &&& !old(self).spec_allocated(t)
                    &&& final(self).spec_allocated(t)
                    &&& final(self).spec_data(t) == data@
                    &&& forall|t2: Token|
                        t2 != t ==> #[trigger] final(self).bufs@[t2 as int] == old(
                            self,
                        ).bufs@[t2 as int]
                },
                Err(()) => *final(self) == *old(self),
            },
    {
        let mut t: usize = 0;
        while t < 256
            invariant
                old(self).wf(),
                *self == *old(self),
                t <= 256,
                forall|x: int| 0 <= x < t ==> old(self).bufs@[x] is Some,
            decreases 256 - t,
        {
            if self.bufs[t].is_none() {
                // reuse a spare buffer's storage when one is cached
                if self.spare.len() > 0 {
                    let _reused = self.spare.pop();
                }
                self.bufs.set(t, Some(data));
                proof {
                    assert(!old(self).spec_allocated(t as Token));
                    assert(!pool_exhausted(*old(self)));
                    assert(final(self).spec_allocated(t as Token));
                    assert(final(self).spec_data(t as Token) == data@);
                }
                return Ok(t as Token);
            }
            t = t + 1;
        }
        proof {
            assert forall|t2: Token| old(self).spec_allocated(t2) by {
                assert(old(self).bufs@[t2 as int] is Some);
            }
        }
        proof {
            assert(pool_exhausted(*old(self)));
        }
        Err(())
    }

    /// The in-flight reply behind a token, for the submission path.
    pub fn get(&self, t: Token) -> (r: Option<&Vec<u8>>)
        requires
            self.wf(),
        ensures
            match r {
                Some(v) => self.spec_allocated(t) && v@ == self.spec_data(t),
                None => !self.spec_allocated(t),
            },
    {
        match &self.bufs[t as usize] {
            Some(v) => Some(v),
            None => None,
        }
    }

    /// Releases a token on send completion (the reactor passes the raw
    /// user-data word; only the low 8 bits address the pool). The buffer
    /// goes to the spare cache.
    pub fn free(&mut self, token_bits: u64)
        requires
            old(self).wf(),
        ensures
            final(self).wf(),
            !final(self).spec_allocated((token_bits & 0xFF) as Token),
            forall|t2: Token|
                t2 != (token_bits & 0xFF) as Token ==> #[trigger] final(self).bufs@[t2 as int]
                    == old(self).bufs@[t2 as int],
    {
        let t = (token_bits & 0xFF) as usize;
        proof {
            assert((token_bits & 0xFF) < 256) by (bit_vector);
        }
        let prev = self.bufs.remove(t);
        self.bufs.insert(t, None);
        if let Some(buf) = prev {
            self.spare.push(buf);
        }
        proof {
            assert(final(self).bufs@ =~= old(self).bufs@.update(t as int, None));
        }
    }

    /// How many spare buffers the cache holds.
    pub fn spare_count(&self) -> (r: usize)
        ensures
            r == self.spare@.len(),
    {
        self.spare.len()
    }

    /// Drops the spare-buffer cache on memory pressure; in-flight replies
    /// are untouched.
    pub fn trim(&mut self)
        requires
            old(self).wf(),
        ensures
            final(self).wf(),
            final(self).bufs@ == old(self).bufs@,
            final(self).spare@.len() == 0,
    {
        self.spare = Vec::new();
    }
}

} // verus!
