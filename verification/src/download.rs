//! The buffer that receives the first bytes of a document as it is
//! downloaded chunk by chunk: at most 2 MiB, and never more than the
//! document's size.
use vstd::prelude::*;

verus! {

/// The most bytes kept from one document (2 MiB).
pub const DOWNLOAD_CAP: u64 = 2097152;

/// `max(a - c, 0)`.
pub open spec fn saturating_diff(a: int, c: int) -> int {
    if a >= c {
        a - c
    } else {
        0
    }
}

/// The limit for a document of `file_size` bytes: `min(2 MiB, file_size)`.
pub open spec fn limit_for(file_size: u64) -> nat {
    if file_size < DOWNLOAD_CAP {
        file_size as nat
    } else {
        DOWNLOAD_CAP as nat
    }
}

/// What the buffer holds after taking `chunk` when it held `bytes`: the
/// part of `chunk` that fits below `limit` is appended.
pub open spec fn take_chunk(limit: nat, bytes: Seq<u8>, chunk: Seq<u8>) -> Seq<u8> {
    let room = saturating_diff(limit as int, bytes.len() as int);
    let take = if chunk.len() < room {
        chunk.len() as int
    } else {
        room
    };
    bytes + chunk.take(take)
}

/// What the buffer holds after taking `chunks` in order from empty.
pub open spec fn take_chunks(limit: nat, chunks: Seq<Seq<u8>>) -> Seq<u8>
    decreases chunks.len(),
{
    if chunks.len() == 0 {
        Seq::empty()
    } else {
        take_chunk(limit, take_chunks(limit, chunks.drop_last()), chunks.last())
    }
}

/// The download buffer of one document.
pub struct ChunkBuffer {
    limit: usize,
    bytes: Vec<u8>,
}

impl ChunkBuffer {
    /// The most bytes the buffer keeps.
    pub closed spec fn limit(&self) -> nat {
        self.limit as nat
    }

    /// The bytes kept so far.
    pub closed spec fn bytes(&self) -> Seq<u8> {
        self.bytes@
    }

    /// An empty buffer for a document of `file_size` bytes.
    pub fn new(file_size: u64) -> (r: ChunkBuffer)
        ensures
            r.limit() == limit_for(file_size),
            r.bytes() == Seq::<u8>::empty(),
    {
        let limit: u64 = if file_size < DOWNLOAD_CAP {
            file_size
        } else {
            DOWNLOAD_CAP
        };
        ChunkBuffer { limit: limit as usize, bytes: Vec::new() }
    }

    /// Whether another chunk is wanted: fewer bytes kept than the limit.
    pub fn wants_more(&self) -> (r: bool)
        ensures
            r == (self.bytes().len() < self.limit()),
    {
        self.bytes.len() < self.limit
    }

    /// Takes the part of `chunk` that fits below the limit.
    pub fn push_chunk(&mut self, chunk: &[u8])
        ensures
            final(self).limit() == old(self).limit(),
            final(self).bytes() == take_chunk(old(self).limit(), old(self).bytes(), chunk@),
    {
        let remaining = if self.limit >= self.bytes.len() {
            self.limit - self.bytes.len()
        } else {
            0
        };
        let take = if chunk.len() < remaining {
            chunk.len()
        } else {
            remaining
        };
        let ghost start = self.bytes@;
        let mut i: usize = 0;
        while i < take
            invariant
                take <= chunk.len(),
                i <= take,
                self.limit == old(self).limit,
                start == old(self).bytes@,
                self.bytes@ == start + chunk@.take(i as int),
            decreases take - i,
        {
            self.bytes.push(chunk[i]);
            i = i + 1;
            assert(chunk@.take(i as int) =~= chunk@.take(i - 1).push(chunk@[i - 1]));
        }
    }

    /// The bytes kept, or the error `Downloaded zero bytes` when none were.
    pub fn finish(self) -> (r: Result<Vec<u8>, String>)
        ensures
            match r {
                Ok(v) => v@ == self.bytes() && v@.len() > 0,
                Err(e) => self.bytes().len() == 0 && e@ == "Downloaded zero bytes"@,
            },
    {
        if self.bytes.len() == 0 {
            Err(String::from_str("Downloaded zero bytes"))
        } else {
            Ok(self.bytes)
        }
    }
}

/// Whatever chunks arrive, the buffer holds the first bytes of the stream
/// they make up: as many as the stream has, up to the limit.
pub proof fn lemma_buffer_is_stream_prefix(limit: nat, chunks: Seq<Seq<u8>>)
    ensures
        take_chunks(limit, chunks) == chunks.flatten().take(
            if chunks.flatten().len() < limit {
                chunks.flatten().len() as int
            } else {
                limit as int
            },
        ),
    decreases chunks.len(),
{
    if chunks.len() > 0 {
        let init = chunks.drop_last();
        lemma_buffer_is_stream_prefix(limit, init);
        assert(chunks =~= init.push(chunks.last()));
        init.lemma_flatten_push(chunks.last());
        let prev = take_chunks(limit, init);
        let flat = chunks.flatten();
        assert(flat =~= init.flatten() + chunks.last());
        assert(take_chunks(limit, chunks) =~= flat.take(
            if flat.len() < limit {
                flat.len() as int
            } else {
                limit as int
            },
        ));
    } else {
        assert(chunks.flatten() =~= Seq::<u8>::empty());
    }
}

} // verus!
