//! The bounded tail of a process's output stream.

use vstd::prelude::*;

verus! {

/// The last `limit` bytes of `bytes`, or all of them when there are fewer.
pub open spec fn tail_of(bytes: Seq<u8>, limit: nat) -> Seq<u8> {
    if bytes.len() > limit {
        bytes.subrange(bytes.len() - limit, bytes.len() as int)
    } else {
        bytes
    }
}

/// Keeping a tail as bytes arrive keeps the tail of the whole stream: the
/// last `limit` bytes of a kept tail followed by more bytes are the last
/// `limit` bytes of everything that arrived.
pub proof fn lemma_tail_of_tail(seen: Seq<u8>, more: Seq<u8>, limit: nat)
    ensures
        tail_of(tail_of(seen, limit) + more, limit) == tail_of(seen + more, limit),
{
    let all = seen + more;
    let kept = tail_of(seen, limit) + more;
    if seen.len() > limit {
        let d = seen.len() - limit;
        assert forall|i: int| 0 <= i < kept.len() implies #[trigger] kept[i] == all[i + d] by {
            if i < limit {
                assert(kept[i] == seen[i + d]);
            }
        }
        if kept.len() > limit {
            assert(tail_of(kept, limit) =~= tail_of(all, limit));
        } else {
            assert(tail_of(kept, limit) =~= tail_of(all, limit));
        }
    } else {
        assert(kept =~= all);
    }
}

/// Text decoded from bytes, with each invalid UTF-8 sequence replaced by
/// U+FFFD, as `String::from_utf8_lossy` decodes it.
pub uninterp spec fn utf8_lossy(bytes: Seq<u8>) -> Seq<char>;

/// `String::from_utf8_lossy`, owned. Its result is named by [`utf8_lossy`];
/// the documentation promises that valid UTF-8 comes back unchanged.
#[verifier::external_body]
fn lossy_text(bytes: &[u8]) -> (r: String)
    ensures
        r@ == utf8_lossy(bytes@),
        forall|text: Seq<char>| vstd::utf8::encode_utf8(text) == bytes@ ==> r@ == text,
{
    String::from_utf8_lossy(bytes).into_owned()
}

/// The last bytes of an output stream, kept within a limit, and whether
/// any were dropped.
pub struct OutputTail {
    limit: usize,
    bytes: Vec<u8>,
    truncated: bool,
}

impl OutputTail {
    /// The tail never holds more than the limit.
    #[verifier::type_invariant]
    spec fn bounded(&self) -> bool {
        self.bytes@.len() <= self.limit
    }

    /// The most bytes kept.
    pub closed spec fn limit(&self) -> nat {
        self.limit as nat
    }

    /// The bytes kept.
    pub closed spec fn kept(&self) -> Seq<u8> {
        self.bytes@
    }

    /// Whether bytes were dropped.
    pub closed spec fn dropped(&self) -> bool {
        self.truncated
    }

    /// An empty tail keeping at most `limit` bytes.
    pub fn new(limit: usize) -> (r: Self)
        ensures
            r.limit() == limit,
            r.kept() == Seq::<u8>::empty(),
            !r.dropped(),
    {
        OutputTail { limit, bytes: Vec::new(), truncated: false }
    }

    /// Appends `chunk`, keeping the last `limit` bytes of what was kept and
    /// the chunk; bytes are dropped when these exceed the limit.
    pub fn push(&mut self, chunk: &[u8])
        ensures
            final(self).limit() == old(self).limit(),
            final(self).kept() == tail_of(old(self).kept() + chunk@, old(self).limit()),
            final(self).dropped() == (old(self).dropped() || old(self).kept().len() + chunk@.len() > old(self).limit()),
    {
        proof {
            use_type_invariant(&*self);
        }
        let limit = self.limit;
        let ghost all = self.bytes@ + chunk@;
        let mut from_old: usize = self.bytes.len();
        let mut from_chunk: usize = 0;
        let mut cut: bool = false;
        if chunk.len() >= limit {
            from_chunk = chunk.len() - limit;
            cut = chunk.len() > limit || self.bytes.len() > 0;
        } else {
            let room = limit - chunk.len();
            if self.bytes.len() > room {
                from_old = self.bytes.len() - room;
                cut = true;
            } else {
                from_old = 0;
            }
        }
        let mut kept: Vec<u8> = Vec::new();
        let mut i: usize = from_old;
        while i < self.bytes.len()
            invariant
                from_old <= i <= self.bytes@.len(),
                kept@ == self.bytes@.subrange(from_old as int, i as int),
            decreases self.bytes@.len() - i,
        {
            kept.push(self.bytes[i]);
            i = i + 1;
        }
        let mut j: usize = from_chunk;
        while j < chunk.len()
            invariant
                from_chunk <= j <= chunk@.len(),
                kept@ == self.bytes@.subrange(from_old as int, self.bytes@.len() as int) + chunk@.subrange(
                    from_chunk as int,
                    j as int,
                ),
            decreases chunk@.len() - j,
        {
            kept.push(chunk[j]);
            j = j + 1;
        }
        assert(kept@ =~= tail_of(all, limit as nat));
        let truncated = self.truncated || cut;
        *self = OutputTail { limit, bytes: kept, truncated };
    }

    /// The kept bytes decoded as text, invalid UTF-8 replaced, and whether
    /// bytes were dropped.
    pub fn finish(self) -> (r: (String, bool))
        ensures
            r.0@ == utf8_lossy(self.kept()),
            forall|text: Seq<char>| vstd::utf8::encode_utf8(text) == self.kept() ==> r.0@ == text,
            r.1 == self.dropped(),
    {
        (lossy_text(self.bytes.as_slice()), self.truncated)
    }
}

} // verus!
