//! The buffered line scanner: chunks in, logical lines out.
//!
//! The scanner keeps nothing of a chunk but the unterminated tail, in a
//! bounded carry buffer. What it emits depends on the bytes alone, never on
//! where the chunk boundaries fall.

use crate::bytes::find_byte;
use crate::error::Error;
use crate::lines::{
    byte_views, complete_lines, concat_chunks, final_line, lemma_append_run,
    lemma_append_terminated_run, lemma_concat_split, lemma_pending_within_a_line,
    lemma_resume_from_pending, lemma_terminator_free, lines_of, pending, terminator_free, EOL,
};
use vstd::prelude::*;
use vstd::slice::slice_subrange;
use vstd::slice::slice_to_vec;

verus! {

/// A byte buffer with a fixed limit, checked on every write.
pub struct CarryBuffer {
    data: Vec<u8>,
    limit: usize,
}

impl View for CarryBuffer {
    type V = Seq<u8>;

    closed spec fn view(&self) -> Seq<u8> {
        self.data@
    }
}

impl CarryBuffer {
    /// The most bytes the buffer may hold.
    pub closed spec fn spec_capacity(&self) -> usize {
        self.limit
    }

    /// The stored length never exceeds the capacity.
    pub open spec fn wf(&self) -> bool {
        self@.len() <= self.spec_capacity()
    }

    /// An empty buffer that holds at most `capacity` bytes.
    pub fn new(capacity: usize) -> (buf: Self)
        ensures
            buf.wf(),
            buf@ == Seq::<u8>::empty(),
            buf.spec_capacity() == capacity,
    {
        CarryBuffer { data: Vec::new(), limit: capacity }
    }

    /// The most bytes the buffer may hold.
    #[verifier::when_used_as_spec(spec_capacity)]
    pub fn capacity(&self) -> (c: usize)
        ensures
            c == self.spec_capacity(),
    {
        self.limit
    }

    /// The number of bytes stored.
    pub fn len(&self) -> (n: usize)
        ensures
            n == self@.len(),
    {
        self.data.len()
    }

    /// Whether nothing is stored.
    pub fn is_empty(&self) -> (b: bool)
        ensures
            b == (self@.len() == 0),
    {
        self.data.len() == 0
    }

    /// Appends `bytes` if they fit; otherwise leaves the buffer as it was and
    /// reports the line as too long.
    pub fn append(&mut self, bytes: &[u8]) -> (res: Result<(), Error>)
        requires
            old(self).wf(),
        ensures
            final(self).wf(),
            final(self).spec_capacity() == old(self).spec_capacity(),
            old(self)@.len() + bytes@.len() <= old(self).spec_capacity() ==> res is Ok && final(self)@ == old(self)@ + bytes@,
            old(self)@.len() + bytes@.len() > old(self).spec_capacity() ==> res == Err::<(), Error>(
                Error::LineTooLong,
            ) && final(self)@ == old(self)@,
    {
        if bytes.len() > self.limit - self.data.len() {
            return Err(Error::LineTooLong);
        }
        let ghost before = self.data@;
        self.data.extend_from_slice(bytes);
        assert(self.data@ =~= before + bytes@);
        Ok(())
    }

    /// Hands the content out and leaves the buffer empty.
    pub fn take(&mut self) -> (content: Vec<u8>)
        ensures
            content@ == old(self)@,
            final(self)@ == Seq::<u8>::empty(),
            final(self).spec_capacity() == old(self).spec_capacity(),
            final(self).wf(),
    {
        let mut content: Vec<u8> = Vec::new();
        std::mem::swap(&mut self.data, &mut content);
        content
    }
}

/// The first index at or after `from` that holds a terminator; the length of
/// `bytes` where there is none.
pub fn find_terminator(bytes: &[u8], from: usize) -> (at: usize)
    requires
        from <= bytes@.len(),
    ensures
        from <= at <= bytes@.len(),
        terminator_free(bytes@.subrange(from as int, at as int)),
        at < bytes@.len() ==> bytes@[at as int] == EOL,
{
    find_byte(bytes, from, EOL)
}

/// Where the unterminated tail of `bytes` begins: just after the last
/// terminator, or at 0 where there is none.
pub fn tail_start(bytes: &[u8]) -> (at: usize)
    ensures
        at <= bytes@.len(),
        terminator_free(bytes@.skip(at as int)),
        at > 0 ==> bytes@[at - 1] == EOL,
        bytes@.skip(at as int) == pending(bytes@),
{
    let mut at: usize = bytes.len();
    while at > 0 && bytes[at - 1] != EOL
        invariant
            at <= bytes@.len(),
            terminator_free(bytes@.skip(at as int)),
        decreases at,
    {
        proof {
            let longer = bytes@.skip(at - 1);
            assert forall|i: int| 0 <= i < longer.len() implies #[trigger] longer[i] != EOL by {
                if i > 0 {
                    assert(bytes@.skip(at as int)[i - 1] != EOL);
                }
            }
        }
        at -= 1;
    }
    proof {
        let head = bytes@.take(at as int);
        let tail = bytes@.skip(at as int);
        assert(head + tail =~= bytes@);
        lemma_append_run(head, tail);
        if at > 0 {
            assert(head.last() == EOL);
        }
        assert(pending(head) + tail =~= tail);
    }
    at
}

/// Reassembles logical lines from chunks of any size.
pub struct LineScanner {
    carry: CarryBuffer,
}

impl LineScanner {
    /// The unterminated bytes kept from the chunks fed so far.
    pub closed spec fn carried(&self) -> Seq<u8> {
        self.carry@
    }

    /// The longest unterminated tail that the scanner can keep.
    pub closed spec fn spec_capacity(&self) -> usize {
        self.carry.spec_capacity()
    }

    /// The carry fits its buffer and holds no terminator.
    pub closed spec fn wf(&self) -> bool {
        self.carry.wf() && terminator_free(self.carry@)
    }

    /// The carried bytes never outgrow the buffer and never hold a
    /// terminator: this is all that well-formedness asks.
    pub proof fn lemma_carry_is_bounded(&self)
        ensures
            self.wf() <==> self.carried().len() <= self.spec_capacity() && terminator_free(
                self.carried(),
            ),
    {
    }

    /// A scanner that has seen nothing, with a carry buffer of `capacity`
    /// bytes.
    pub fn new(capacity: usize) -> (scanner: Self)
        ensures
            scanner.wf(),
            scanner.carried() == Seq::<u8>::empty(),
            scanner.spec_capacity() == capacity,
    {
        LineScanner { carry: CarryBuffer::new(capacity) }
    }

    /// The longest unterminated tail that the scanner can keep.
    #[verifier::when_used_as_spec(spec_capacity)]
    pub fn capacity(&self) -> (c: usize)
        ensures
            c == self.spec_capacity(),
    {
        self.carry.capacity()
    }

    /// The number of bytes waiting for their terminator.
    pub fn carried_len(&self) -> (n: usize)
        ensures
            n == self.carried().len(),
    {
        self.carry.len()
    }

    /// Takes the next chunk and returns the lines that it completes, in
    /// order. The first of them begins with the bytes carried over. The
    /// unterminated tail becomes the new carry; where it does not fit, the
    /// chunk is refused and the scanner stays as it was.
    pub fn feed(&mut self, chunk: &[u8]) -> (res: Result<Vec<Vec<u8>>, Error>)
        requires
            old(self).wf(),
        ensures
            final(self).wf(),
            final(self).spec_capacity() == old(self).spec_capacity(),
            pending(old(self).carried() + chunk@).len() <= old(self).spec_capacity() ==> res is Ok
                && byte_views(res.unwrap()@) == complete_lines(old(self).carried() + chunk@)
                && final(self).carried() == pending(old(self).carried() + chunk@),
            pending(old(self).carried() + chunk@).len() > old(self).spec_capacity() ==> res
                == Err::<Vec<Vec<u8>>, Error>(Error::LineTooLong) && final(self).carried() == old(self).carried(),
    {
        let ghost carry0 = self.carry@;
        let ghost whole = carry0 + chunk@;
        let n = chunk.len();
        let tail_at = tail_start(chunk);
        let mut lines: Vec<Vec<u8>> = Vec::new();
        if tail_at == 0 {
            proof {
                assert(chunk@.skip(0) =~= chunk@);
                lemma_terminator_free(carry0);
                lemma_append_run(carry0, chunk@);
                assert(byte_views(lines@) =~= complete_lines(whole));
            }
            return match self.carry.append(chunk) {
                Ok(()) => Ok(lines),
                Err(e) => Err(e),
            };
        }
        proof {
            let head = carry0 + chunk@.take(tail_at as int);
            assert(head + chunk@.skip(tail_at as int) =~= whole);
            assert(head.last() == EOL);
            lemma_append_run(head, chunk@.skip(tail_at as int));
            assert(pending(head) + chunk@.skip(tail_at as int) =~= chunk@.skip(tail_at as int));
        }
        if n - tail_at > self.carry.capacity() {
            return Err(Error::LineTooLong);
        }
        let first_end = find_terminator(chunk, 0);
        assert(first_end < tail_at) by {
            if first_end >= tail_at {
                assert(chunk@.subrange(0, first_end as int)[tail_at - 1] == EOL);
            }
        }
        let mut first = self.carry.take();
        first.extend_from_slice(slice_subrange(chunk, 0, first_end));
        lines.push(first);
        let mut start: usize = first_end + 1;
        proof {
            let run = chunk@.subrange(0, first_end as int);
            assert(first@ =~= carry0 + run);
            lemma_terminator_free(carry0);
            lemma_append_terminated_run(carry0, run);
            assert(carry0 + run.push(EOL) =~= carry0 + chunk@.take(start as int));
            assert(complete_lines(carry0) =~= Seq::<Seq<u8>>::empty());
            assert(byte_views(lines@) =~= complete_lines(carry0 + chunk@.take(start as int)));
        }
        while start < tail_at
            invariant
                0 < start <= tail_at <= n,
                n == chunk@.len(),
                chunk@[tail_at - 1] == EOL,
                byte_views(lines@) == complete_lines(carry0 + chunk@.take(start as int)),
                pending(carry0 + chunk@.take(start as int)) == Seq::<u8>::empty(),
            decreases tail_at - start,
        {
            let end = find_terminator(chunk, start);
            assert(end < tail_at) by {
                if end >= tail_at {
                    assert(chunk@.subrange(start as int, end as int)[tail_at - 1 - start] == EOL);
                }
            }
            let line = slice_to_vec(slice_subrange(chunk, start, end));
            proof {
                let before = carry0 + chunk@.take(start as int);
                let run = chunk@.subrange(start as int, end as int);
                lemma_append_terminated_run(before, run);
                assert(before + run.push(EOL) =~= carry0 + chunk@.take(end + 1));
                assert(pending(before) + run =~= run);
                assert(byte_views(lines@).push(line@) =~= complete_lines(
                    carry0 + chunk@.take(end + 1),
                ));
            }
            let ghost prior = byte_views(lines@);
            lines.push(line);
            assert(byte_views(lines@) =~= prior.push(line@));
            start = end + 1;
        }
        proof {
            let head = carry0 + chunk@.take(tail_at as int);
            lemma_append_run(head, chunk@.skip(tail_at as int));
            assert(head + chunk@.skip(tail_at as int) =~= whole);
        }
        let appended = self.carry.append(slice_subrange(chunk, tail_at, n));
        assert(appended is Ok);
        assert(self.carry@ =~= chunk@.skip(tail_at as int));
        Ok(lines)
    }

    /// Ends the input: the carried bytes are the last line, if there are any.
    pub fn finish(self) -> (last: Option<Vec<u8>>)
        ensures
            self.carried().len() == 0 ==> last is None,
            self.carried().len() > 0 ==> last is Some && last.unwrap()@ == self.carried(),
    {
        let mut carry = self.carry;
        if carry.is_empty() {
            None
        } else {
            Some(carry.take())
        }
    }
}

/// At no chunk boundary is the unterminated tail longer than `capacity`.
pub open spec fn carry_fits(chunks: Seq<Seq<u8>>, capacity: int) -> bool {
    forall|k: int|
        0 <= k <= chunks.len() ==> pending(concat_chunks(#[trigger] chunks.take(k))).len()
            <= capacity
}

/// What a scan of `chunks` comes to: the logical lines of the bytes taken
/// together, or `LineTooLong` where a tail outgrows the carry buffer.
pub open spec fn scan_result(chunks: Seq<Seq<u8>>, capacity: int) -> Result<Seq<Seq<u8>>, Error> {
    if carry_fits(chunks, capacity) {
        Ok(lines_of(concat_chunks(chunks)))
    } else {
        Err(Error::LineTooLong)
    }
}

/// Scans a whole input given as chunks, with a carry buffer of `capacity`
/// bytes, and returns its logical lines: the terminated ones, then the
/// unterminated last one if it is not empty.
pub fn scan_chunks(chunks: &Vec<Vec<u8>>, capacity: usize) -> (res: Result<Vec<Vec<u8>>, Error>)
    ensures
        match res {
            Ok(lines) => scan_result(byte_views(chunks@), capacity as int) == Ok::<
                Seq<Seq<u8>>,
                Error,
            >(byte_views(lines@)),
            Err(e) => scan_result(byte_views(chunks@), capacity as int) == Err::<
                Seq<Seq<u8>>,
                Error,
            >(e),
        },
{
    let ghost all = byte_views(chunks@);
    let mut scanner = LineScanner::new(capacity);
    let mut lines: Vec<Vec<u8>> = Vec::new();
    let mut i: usize = 0;
    proof {
        assert(byte_views(lines@) =~= complete_lines(concat_chunks(all.take(0))));
    }
    while i < chunks.len()
        invariant
            all == byte_views(chunks@),
            i <= chunks.len(),
            scanner.wf(),
            scanner.spec_capacity() == capacity,
            forall|k: int|
                0 <= k <= i ==> pending(concat_chunks(#[trigger] all.take(k))).len() <= capacity,
            byte_views(lines@) == complete_lines(concat_chunks(all.take(i as int))),
            scanner.carried() == pending(concat_chunks(all.take(i as int))),
        decreases chunks.len() - i,
    {
        let ghost before = concat_chunks(all.take(i as int));
        let ghost chunk = chunks[i as int]@;
        proof {
            assert(all.take(i + 1).drop_last() =~= all.take(i as int));
            assert(all.take(i + 1).last() == chunk);
            lemma_resume_from_pending(before, chunk);
        }
        match scanner.feed(chunks[i].as_slice()) {
            Ok(mut found) => {
                let ghost prior = byte_views(lines@);
                let ghost added = byte_views(found@);
                lines.append(&mut found);
                assert(byte_views(lines@) =~= prior + added);
            },
            Err(e) => {
                return Err(e);
            },
        }
        i += 1;
    }
    proof {
        assert(all.take(i as int) =~= all);
    }
    let ghost terminated = byte_views(lines@);
    match scanner.finish() {
        Some(last) => {
            lines.push(last);
            assert(byte_views(lines@) =~= terminated + final_line(pending(concat_chunks(all))));
        },
        None => {
            assert(byte_views(lines@) =~= terminated + final_line(pending(concat_chunks(all))));
        },
    }
    Ok(lines)
}

/// Chunk boundaries do not show: two ways of cutting the same bytes into
/// chunks give the same lines, wherever the cuts fall, as long as the carry
/// buffer holds every tail.
pub proof fn lemma_chunking_is_irrelevant(a: Seq<Seq<u8>>, b: Seq<Seq<u8>>, capacity: int)
    requires
        concat_chunks(a) == concat_chunks(b),
        carry_fits(a, capacity),
        carry_fits(b, capacity),
    ensures
        scan_result(a, capacity) == scan_result(b, capacity),
{
}

/// A scan in chunks that succeeds gives what a scan of all the bytes as one
/// single chunk gives.
pub proof fn lemma_same_as_single_chunk(chunks: Seq<Seq<u8>>, capacity: int)
    requires
        carry_fits(chunks, capacity),
    ensures
        scan_result(chunks, capacity) == scan_result(seq![concat_chunks(chunks)], capacity),
{
    let content = concat_chunks(chunks);
    let single = seq![content];
    assert(single.drop_last() =~= Seq::<Seq<u8>>::empty());
    assert(concat_chunks(single) =~= content);
    assert(chunks.take(chunks.len() as int) =~= chunks);
    assert forall|k: int| 0 <= k <= single.len() implies pending(
        concat_chunks(#[trigger] single.take(k)),
    ).len() <= capacity by {
        if k == 0 {
            assert(single.take(0) =~= Seq::<Seq<u8>>::empty());
        } else {
            assert(single.take(1) =~= single);
        }
    }
}

/// Where no logical line of the input is longer than the carry buffer, every
/// way of cutting the input into chunks can be scanned.
pub proof fn lemma_short_lines_fit(chunks: Seq<Seq<u8>>, capacity: int)
    requires
        forall|i: int|
            0 <= i < lines_of(concat_chunks(chunks)).len() ==> (#[trigger] lines_of(
                concat_chunks(chunks),
            )[i]).len() <= capacity,
        0 <= capacity,
    ensures
        carry_fits(chunks, capacity),
{
    assert forall|k: int| 0 <= k <= chunks.len() implies pending(
        concat_chunks(#[trigger] chunks.take(k)),
    ).len() <= capacity by {
        lemma_concat_split(chunks, k);
        lemma_pending_within_a_line(concat_chunks(chunks.take(k)), concat_chunks(chunks.skip(k)));
    }
}

} // verus!
