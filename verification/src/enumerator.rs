use vstd::prelude::*;

verus! {

/// The reading side of a byte stream whose data arrives in chunks (the
/// strings that a Ruby enumerator yields). A read hands out as much of the
/// current chunk as fits in the caller's buffer and keeps the rest for the
/// next read.
pub struct EnumeratorRead {
    buffer: Option<Vec<u8>>,
}

/// What a read needs next.
pub enum ReadStep {
    /// The read is done: this many bytes were placed in the buffer.
    Done(usize),
    /// Nothing is kept back: the next chunk must be fetched and handed to
    /// `read_from_external`.
    NeedChunk,
}

impl View for EnumeratorRead {
    /// The bytes kept back from the last chunk, if any.
    type V = Option<Seq<u8>>;

    closed spec fn view(&self) -> Option<Seq<u8>> {
        match self.buffer {
            Some(b) => Some(b@),
            None => None,
        }
    }
}

/// The number of bytes a read hands out: as many as fit.
pub open spec fn fill_len(buf_len: nat, value_len: nat) -> nat {
    if value_len > buf_len { buf_len } else { value_len }
}

/// After a read of `n` bytes of `value` into `buf`, the buffer starts with
/// those bytes and is unchanged after them.
pub open spec fn filled_from(after: Seq<u8>, before: Seq<u8>, value: Seq<u8>, n: nat) -> bool {
    &&& after.len() == before.len()
    &&& after.take(n as int) == value.take(n as int)
    &&& after.skip(n as int) == before.skip(n as int)
}

impl EnumeratorRead {
    /// A stream with nothing kept back.
    pub fn new() -> (r: Self)
        ensures
            r@ is None,
    {
        EnumeratorRead { buffer: None }
    }

    /// Copies the start of `value` into `buf`, as much as fits, and keeps
    /// the rest of `value`, if any, for the next read. Returns the number of
    /// bytes copied.
    pub fn read_and_store_overflow(&mut self, buf: &mut [u8], value: &[u8]) -> (n: usize)
        ensures
            n == fill_len(old(buf)@.len(), value@.len()),
            filled_from(final(buf)@, old(buf)@, value@, n as nat),
            final(self)@ == if value@.len() > old(buf)@.len() {
                Some(value@.skip(old(buf)@.len() as int))
            } else {
                None::<Seq<u8>>
            },
    {
        let n = if value.len() > buf.len() {
            buf.len()
        } else {
            value.len()
        };
        let mut i: usize = 0;
        while i < n
            invariant
                n <= buf@.len(),
                n <= value@.len(),
                i <= n,
                buf@.len() == old(buf)@.len(),
                buf@.take(i as int) == value@.take(i as int),
                buf@.skip(n as int) == old(buf)@.skip(n as int),
            decreases n - i,
        {
            buf[i] = value[i];
            proof {
                assert(buf@.take(i + 1) =~= value@.take(i + 1));
                assert(buf@.skip(n as int) =~= old(buf)@.skip(n as int));
            }
            i = i + 1;
        }
        if value.len() > buf.len() {
            let rest = vstd::slice::slice_to_vec(
                vstd::slice::slice_subrange(value, buf.len(), value.len()),
            );
            self.buffer = Some(rest);
        } else {
            self.buffer = None;
        }
        n
    }

    /// A read into `buf`: from the bytes kept back, if there are any;
    /// otherwise the caller has to fetch the next chunk.
    pub fn read(&mut self, buf: &mut [u8]) -> (step: ReadStep)
        ensures
            old(self)@ matches Some(kept) ==> step matches ReadStep::Done(n) && n == fill_len(
                old(buf)@.len(),
                kept.len(),
            ) && filled_from(final(buf)@, old(buf)@, kept, n as nat) && final(self)@ == if kept.len()
                > old(buf)@.len() {
                Some(kept.skip(old(buf)@.len() as int))
            } else {
                None::<Seq<u8>>
            },
            old(self)@ is None ==> step is NeedChunk && final(self)@ is None && final(buf)@ == old(
                buf,
            )@,
    {
        match self.buffer.take() {
            Some(inner) => {
                let n = self.read_and_store_overflow(buf, inner.as_slice());
                ReadStep::Done(n)
            },
            None => ReadStep::NeedChunk,
        }
    }

    /// A read into `buf` from the next chunk, called when `read` asks for
    /// one: `Some` with its bytes, or `None` when the enumerator is
    /// exhausted, raised, or yielded something other than a string, which
    /// ends the stream (0 bytes). After a chunk, what is kept back comes
    /// from that chunk alone.
    pub fn read_from_external(&mut self, buf: &mut [u8], next: Option<&[u8]>) -> (n: usize)
        ensures
            next matches Some(chunk) ==> n == fill_len(old(buf)@.len(), chunk@.len()) && filled_from(
                final(buf)@,
                old(buf)@,
                chunk@,
                n as nat,
            ) && final(self)@ == if chunk@.len() > old(buf)@.len() {
                Some(chunk@.skip(old(buf)@.len() as int))
            } else {
                None::<Seq<u8>>
            },
            next is None ==> n == 0 && final(self)@ == old(self)@ && final(buf)@ == old(buf)@,
    {
        match next {
            Some(chunk) => self.read_and_store_overflow(buf, chunk),
            None => 0,
        }
    }
}

/// No byte of a chunk is lost or repeated: the bytes a read hands out,
/// followed by those it keeps back, are the bytes it read from.
pub proof fn law_read_keeps_every_byte(after: Seq<u8>, before: Seq<u8>, value: Seq<u8>, n: nat)
    requires
        n == fill_len(before.len(), value.len()),
        filled_from(after, before, value, n),
    ensures
        value.len() > before.len() ==> after.take(n as int) + value.skip(before.len() as int)
            == value,
        value.len() <= before.len() ==> after.take(n as int) == value,
{
    if value.len() > before.len() {
        assert(value.take(n as int) + value.skip(n as int) =~= value);
    } else {
        assert(value.take(n as int) =~= value);
    }
}

/// The chunks joined in order.
pub open spec fn joined(chunks: Seq<Seq<u8>>) -> Seq<u8>
    decreases chunks.len(),
{
    if chunks.len() == 0 {
        Seq::empty()
    } else {
        joined(chunks.drop_last()) + chunks.last()
    }
}

/// The bytes kept back, as a sequence (none: empty).
pub open spec fn kept_bytes(kept: Option<Seq<u8>>) -> Seq<u8> {
    match kept {
        Some(k) => k,
        None => Seq::empty(),
    }
}

/// The stream over a sequence of chunks hands out every byte once and in
/// order: if the bytes handed out so far, followed by those kept back, are
/// the chunks taken so far joined, then so they are after one more read,
/// whether that read serves kept bytes (`read` returning `Done(n)`) or a
/// new chunk (`read_from_external` with `Some(chunk)`), whatever the size of
/// the buffer. When the stream ends (nothing kept, no next chunk) the bytes
/// handed out are all the chunks joined.
pub proof fn law_stream_hands_out_the_chunks(
    out: Seq<u8>,
    chunks: Seq<Seq<u8>>,
    kept: Option<Seq<u8>>,
    from_kept: bool,
    chunk: Seq<u8>,
    before: Seq<u8>,
    after: Seq<u8>,
    n: nat,
    kept_after: Option<Seq<u8>>,
)
    requires
        out + kept_bytes(kept) == joined(chunks),
        from_kept ==> kept is Some && chunk == kept->Some_0,
        !from_kept ==> kept is None,
        n == fill_len(before.len(), chunk.len()),
        filled_from(after, before, chunk, n),
        kept_after == if chunk.len() > before.len() {
            Some(chunk.skip(before.len() as int))
        } else {
            None::<Seq<u8>>
        },
    ensures
        from_kept ==> out + after.take(n as int) + kept_bytes(kept_after) == joined(chunks),
        !from_kept ==> out + after.take(n as int) + kept_bytes(kept_after) == joined(
            chunks.push(chunk),
        ),
        kept is None ==> out == joined(chunks),
{
    law_read_keeps_every_byte(after, before, chunk, n);
    assert(after.take(n as int) + kept_bytes(kept_after) == chunk) by {
        if chunk.len() <= before.len() {
            assert(after.take(n as int) + Seq::<u8>::empty() =~= after.take(n as int));
        }
    }
    assert(out + after.take(n as int) + kept_bytes(kept_after) =~= out + (after.take(n as int)
        + kept_bytes(kept_after)));
    if !from_kept {
        assert(out + Seq::<u8>::empty() =~= out);
        assert(chunks.push(chunk).drop_last() =~= chunks);
    }
    if kept is None {
        assert(out + Seq::<u8>::empty() =~= out);
    }
}

} // verus!
