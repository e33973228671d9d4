//! From chunks to the table: the scanner feeding the aggregator.
//!
//! The policy is strict: the first line that is no record ends the run with
//! its error, and nothing is handed out.

use crate::error::Error;
use crate::fold::{lemma_records_push, records_table};
use crate::lines::{
    byte_views, complete_lines, concat_chunks, final_line, lemma_resume_from_pending, lines_of,
    pending,
};
use crate::record::{parse_line, record_of};
use crate::scanner::{carry_fits, LineScanner};
use crate::stats::Summary;
use crate::table::{ascending, sound_stats, table_of, table_with, Aggregator, Entry};
use vstd::prelude::*;

verus! {

/// The table after one more line, or the reason why the line is refused.
pub open spec fn table_after_line(table: Map<Seq<u8>, Summary>, line: Seq<u8>) -> Result<
    Map<Seq<u8>, Summary>,
    Error,
> {
    match record_of(line) {
        Err(e) => Err(e),
        Ok((key, v)) => if table.contains_key(key) && table[key].count >= u64::MAX {
            Err(Error::CountOverflow)
        } else {
            Ok(table_with(table, key, v))
        },
    }
}

/// The table after a sequence of lines, taken in order; the error of the
/// first line that is refused.
pub open spec fn table_after_lines(table: Map<Seq<u8>, Summary>, lines: Seq<Seq<u8>>) -> Result<
    Map<Seq<u8>, Summary>,
    Error,
>
    decreases lines.len(),
{
    if lines.len() == 0 {
        Ok(table)
    } else {
        match table_after_lines(table, lines.drop_last()) {
            Err(e) => Err(e),
            Ok(t) => table_after_line(t, lines.last()),
        }
    }
}

/// Taking lines in two batches is taking them all at once.
pub proof fn lemma_lines_in_two_batches(
    table: Map<Seq<u8>, Summary>,
    first: Seq<Seq<u8>>,
    second: Seq<Seq<u8>>,
)
    ensures
        table_after_lines(table, first + second) == match table_after_lines(table, first) {
            Err(e) => Err(e),
            Ok(t) => table_after_lines(t, second),
        },
    decreases second.len(),
{
    if second.len() == 0 {
        assert(first + second =~= first);
    } else {
        lemma_lines_in_two_batches(table, first, second.drop_last());
        assert((first + second).drop_last() =~= first + second.drop_last());
        assert((first + second).last() == second.last());
    }
}

impl Aggregator {
    /// Parses one line and takes its record in.
    pub fn record_line(&mut self, line: &[u8]) -> (res: Result<(), Error>)
        requires
            old(self).wf(),
        ensures
            final(self).wf(),
            match res {
                Ok(()) => table_after_line(old(self)@, line@) == Ok::<Map<Seq<u8>, Summary>, Error>(
                    final(self)@,
                ),
                Err(e) => table_after_line(old(self)@, line@) == Err::<
                    Map<Seq<u8>, Summary>,
                    Error,
                >(e) && final(self)@ == old(self)@,
            },
    {
        match parse_line(line) {
            Ok(record) => self.record(record.key.as_slice(), record.value),
            Err(e) => Err(e),
        }
    }

    /// Takes lines in, in order, up to the first that is refused.
    pub fn record_lines(&mut self, lines: &Vec<Vec<u8>>) -> (res: Result<(), Error>)
        requires
            old(self).wf(),
        ensures
            final(self).wf(),
            match res {
                Ok(()) => table_after_lines(old(self)@, byte_views(lines@)) == Ok::<
                    Map<Seq<u8>, Summary>,
                    Error,
                >(final(self)@),
                Err(e) => table_after_lines(old(self)@, byte_views(lines@)) == Err::<
                    Map<Seq<u8>, Summary>,
                    Error,
                >(e),
            },
    {
        let ghost all = byte_views(lines@);
        let ghost start = self@;
        let mut i: usize = 0;
        proof {
            assert(all.take(0) =~= Seq::<Seq<u8>>::empty());
        }
        while i < lines.len()
            invariant
                i <= lines@.len(),
                all == byte_views(lines@),
                start == old(self)@,
                self.wf(),
                table_after_lines(start, all.take(i as int)) == Ok::<Map<Seq<u8>, Summary>, Error>(
                    self@,
                ),
            decreases lines@.len() - i,
        {
            proof {
                assert(all.take(i + 1).drop_last() =~= all.take(i as int));
                assert(all.take(i + 1).last() == lines@[i as int]@);
            }
            match self.record_line(lines[i].as_slice()) {
                Ok(()) => {},
                Err(e) => {
                    proof {
                        assert(table_after_lines(start, all.take(i + 1)) == Err::<
                            Map<Seq<u8>, Summary>,
                            Error,
                        >(e));
                        lemma_lines_in_two_batches(start, all.take(i + 1), all.skip(i + 1));
                        assert(all.take(i + 1) + all.skip(i + 1) =~= all);
                    }
                    return Err(e);
                },
            }
            i += 1;
        }
        proof {
            assert(all.take(i as int) =~= all);
        }
        Ok(())
    }
}

/// What feeding one chunk comes to: the new carry and the new table, or the
/// error that ends the run. A tail that does not fit is found before any line
/// of the chunk is looked at.
pub open spec fn fed(
    carried: Seq<u8>,
    table: Map<Seq<u8>, Summary>,
    chunk: Seq<u8>,
    capacity: int,
) -> Result<(Seq<u8>, Map<Seq<u8>, Summary>), Error> {
    if pending(carried + chunk).len() > capacity {
        Err(Error::LineTooLong)
    } else {
        match table_after_lines(table, complete_lines(carried + chunk)) {
            Err(e) => Err(e),
            Ok(t) => Ok((pending(carried + chunk), t)),
        }
    }
}

/// What feeding chunks one after the other comes to.
pub open spec fn fed_all(
    carried: Seq<u8>,
    table: Map<Seq<u8>, Summary>,
    chunks: Seq<Seq<u8>>,
    capacity: int,
) -> Result<(Seq<u8>, Map<Seq<u8>, Summary>), Error>
    decreases chunks.len(),
{
    if chunks.len() == 0 {
        Ok((carried, table))
    } else {
        match fed_all(carried, table, chunks.drop_last(), capacity) {
            Err(e) => Err(e),
            Ok((c, t)) => fed(c, t, chunks.last(), capacity),
        }
    }
}

/// What a whole run over `chunks` comes to: every chunk fed in order, then
/// the carried bytes taken as the last line.
pub open spec fn run_result(chunks: Seq<Seq<u8>>, capacity: int) -> Result<
    Map<Seq<u8>, Summary>,
    Error,
> {
    match fed_all(Seq::empty(), Map::empty(), chunks, capacity) {
        Err(e) => Err(e),
        Ok((c, t)) => table_after_lines(t, final_line(c)),
    }
}

/// A scanner and the aggregator that it feeds.
pub struct Pipeline {
    scanner: LineScanner,
    table: Aggregator,
}

impl Pipeline {
    /// The unterminated bytes kept from the chunks fed so far.
    pub closed spec fn carried(&self) -> Seq<u8> {
        self.scanner.carried()
    }

    /// The table of the lines completed so far.
    pub closed spec fn table(&self) -> Map<Seq<u8>, Summary> {
        self.table@
    }

    /// The longest unterminated tail that the scanner can keep.
    pub closed spec fn spec_capacity(&self) -> usize {
        self.scanner.spec_capacity()
    }

    /// The scanner and the table are well-formed.
    pub closed spec fn wf(&self) -> bool {
        self.scanner.wf() && self.table.wf()
    }

    /// A pipeline that has seen nothing, with a carry buffer of `capacity`
    /// bytes.
    pub fn new(capacity: usize) -> (pipeline: Pipeline)
        ensures
            pipeline.wf(),
            pipeline.carried() == Seq::<u8>::empty(),
            pipeline.table() == Map::<Seq<u8>, Summary>::empty(),
            pipeline.spec_capacity() == capacity,
    {
        Pipeline { scanner: LineScanner::new(capacity), table: Aggregator::new() }
    }

    /// Takes the next chunk: scans it, then takes in each line that it
    /// completes. After an error the run is over.
    pub fn feed(&mut self, chunk: &[u8]) -> (res: Result<(), Error>)
        requires
            old(self).wf(),
        ensures
            final(self).wf(),
            final(self).spec_capacity() == old(self).spec_capacity(),
            match res {
                Ok(()) => fed(
                    old(self).carried(),
                    old(self).table(),
                    chunk@,
                    old(self).spec_capacity() as int,
                ) == Ok::<(Seq<u8>, Map<Seq<u8>, Summary>), Error>(
                    (final(self).carried(), final(self).table()),
                ),
                Err(e) => fed(
                    old(self).carried(),
                    old(self).table(),
                    chunk@,
                    old(self).spec_capacity() as int,
                ) == Err::<(Seq<u8>, Map<Seq<u8>, Summary>), Error>(e),
            },
    {
        let lines = match self.scanner.feed(chunk) {
            Ok(lines) => lines,
            Err(e) => {
                return Err(e);
            },
        };
        self.table.record_lines(&lines)
    }

    /// Ends the input: the carried bytes are the last line, and the table is
    /// handed out ordered by key.
    pub fn finish(self) -> (res: Result<Vec<Entry>, Error>)
        requires
            self.wf(),
        ensures
            match res {
                Ok(entries) => ascending(entries@) && sound_stats(entries@) && table_after_lines(
                    self.table(),
                    final_line(self.carried()),
                ) == Ok::<Map<Seq<u8>, Summary>, Error>(table_of(entries@)),
                Err(e) => table_after_lines(self.table(), final_line(self.carried())) == Err::<
                    Map<Seq<u8>, Summary>,
                    Error,
                >(e),
            },
    {
        let mut table = self.table;
        let ghost tail = self.scanner.carried();
        let ghost start = table@;
        proof {
            assert(table_after_lines(start, Seq::empty()) == Ok::<Map<Seq<u8>, Summary>, Error>(
                start,
            ));
        }
        match self.scanner.finish() {
            Some(last) => {
                proof {
                    assert(final_line(tail).drop_last() =~= Seq::<Seq<u8>>::empty());
                    assert(final_line(tail).last() == last@);
                    assert(table_after_lines(start, final_line(tail)) == table_after_line(
                        start,
                        last@,
                    ));
                }
                match table.record_line(last.as_slice()) {
                    Ok(()) => {},
                    Err(e) => {
                        return Err(e);
                    },
                }
            },
            None => {},
        }
        Ok(table.finalize())
    }
}

/// Runs over a whole input given as chunks and returns one entry per key,
/// ordered by key.
pub fn run(chunks: &Vec<Vec<u8>>, capacity: usize) -> (res: Result<Vec<Entry>, Error>)
    ensures
        match res {
            Ok(entries) => ascending(entries@) && sound_stats(entries@) && run_result(
                byte_views(chunks@),
                capacity as int,
            ) == Ok::<Map<Seq<u8>, Summary>, Error>(table_of(entries@)),
            Err(e) => run_result(byte_views(chunks@), capacity as int) == Err::<
                Map<Seq<u8>, Summary>,
                Error,
            >(e),
        },
{
    let ghost all = byte_views(chunks@);
    let mut pipeline = Pipeline::new(capacity);
    let mut i: usize = 0;
    proof {
        assert(all.take(0) =~= Seq::<Seq<u8>>::empty());
    }
    while i < chunks.len()
        invariant
            i <= chunks@.len(),
            all == byte_views(chunks@),
            pipeline.wf(),
            pipeline.spec_capacity() == capacity,
            fed_all(Seq::empty(), Map::empty(), all.take(i as int), capacity as int) == Ok::<
                (Seq<u8>, Map<Seq<u8>, Summary>),
                Error,
            >((pipeline.carried(), pipeline.table())),
        decreases chunks@.len() - i,
    {
        proof {
            assert(all.take(i + 1).drop_last() =~= all.take(i as int));
            assert(all.take(i + 1).last() == chunks@[i as int]@);
        }
        match pipeline.feed(chunks[i].as_slice()) {
            Ok(()) => {},
            Err(e) => {
                proof {
                    lemma_fed_all_stays_failed(
                        Seq::empty(),
                        Map::empty(),
                        all.take(i + 1),
                        all.skip(i + 1),
                        capacity as int,
                    );
                    assert(all.take(i + 1) + all.skip(i + 1) =~= all);
                }
                return Err(e);
            },
        }
        i += 1;
    }
    proof {
        assert(all.take(i as int) =~= all);
    }
    pipeline.finish()
}

/// Once a chunk has failed, the chunks after it change nothing.
pub proof fn lemma_fed_all_stays_failed(
    carried: Seq<u8>,
    table: Map<Seq<u8>, Summary>,
    first: Seq<Seq<u8>>,
    rest: Seq<Seq<u8>>,
    capacity: int,
)
    requires
        fed_all(carried, table, first, capacity) is Err,
    ensures
        fed_all(carried, table, first + rest, capacity) == fed_all(carried, table, first, capacity),
    decreases rest.len(),
{
    if rest.len() == 0 {
        assert(first + rest =~= first);
    } else {
        lemma_fed_all_stays_failed(carried, table, first, rest.drop_last(), capacity);
        assert((first + rest).drop_last() =~= first + rest.drop_last());
    }
}

/// Chunk boundaries do not show in the result: where the carry buffer holds
/// every tail, a run over chunks comes to what the logical lines of all the
/// bytes come to, taken in order; errors included.
pub proof fn lemma_run_ignores_chunking(chunks: Seq<Seq<u8>>, capacity: int)
    requires
        carry_fits(chunks, capacity),
    ensures
        run_result(chunks, capacity) == table_after_lines(
            Map::empty(),
            lines_of(concat_chunks(chunks)),
        ),
{
    lemma_fed_all_is_the_lines(chunks, capacity);
    let content = concat_chunks(chunks);
    lemma_lines_in_two_batches(Map::empty(), complete_lines(content), final_line(pending(content)));
}

/// Feeding chunks that fit comes to the complete lines of their bytes, with
/// the pending tail carried.
pub proof fn lemma_fed_all_is_the_lines(chunks: Seq<Seq<u8>>, capacity: int)
    requires
        carry_fits(chunks, capacity),
    ensures
        fed_all(Seq::empty(), Map::empty(), chunks, capacity) == match table_after_lines(
            Map::empty(),
            complete_lines(concat_chunks(chunks)),
        ) {
            Err(e) => Err(e),
            Ok(t) => Ok((pending(concat_chunks(chunks)), t)),
        },
    decreases chunks.len(),
{
    if chunks.len() > 0 {
        let front = chunks.drop_last();
        let before = concat_chunks(front);
        let chunk = chunks.last();
        assert forall|k: int| 0 <= k <= front.len() implies pending(
            concat_chunks(#[trigger] front.take(k)),
        ).len() <= capacity by {
            assert(front.take(k) =~= chunks.take(k));
        }
        lemma_fed_all_is_the_lines(front, capacity);
        lemma_resume_from_pending(before, chunk);
        assert(chunks.take(chunks.len() as int) =~= chunks);
        lemma_lines_in_two_batches(
            Map::empty(),
            complete_lines(before),
            complete_lines(pending(before) + chunk),
        );
    }
}

/// The records that a sequence of lines denotes.
pub open spec fn records_of(lines: Seq<Seq<u8>>) -> Seq<(Seq<u8>, int)> {
    Seq::new(lines.len(), |i: int| record_of(lines[i]).unwrap())
}

/// Where every line is taken in, every line is a record, and the table is
/// that of the records.
pub proof fn lemma_lines_table_is_records_table(lines: Seq<Seq<u8>>)
    requires
        table_after_lines(Map::empty(), lines) is Ok,
    ensures
        forall|i: int| 0 <= i < lines.len() ==> record_of(#[trigger] lines[i]) is Ok,
        table_after_lines(Map::empty(), lines) == Ok::<Map<Seq<u8>, Summary>, Error>(
            records_table(records_of(lines)),
        ),
    decreases lines.len(),
{
    if lines.len() > 0 {
        let front = lines.drop_last();
        let last = lines.last();
        lemma_lines_table_is_records_table(front);
        let record = record_of(last).unwrap();
        assert(records_of(lines) =~= records_of(front).push(record));
        lemma_records_push(records_of(front), record.0, record.1);
        assert forall|i: int| 0 <= i < lines.len() implies record_of(#[trigger] lines[i]) is Ok by {
            if i < front.len() {
                assert(lines[i] == front[i]);
            }
        }
    }
}

/// Chunks that are all fed without error fit the carry buffer, and what is
/// carried at the end is the pending tail of their bytes.
pub proof fn lemma_fed_all_needs_room(chunks: Seq<Seq<u8>>, capacity: int)
    requires
        0 <= capacity,
        fed_all(Seq::empty(), Map::empty(), chunks, capacity) is Ok,
    ensures
        carry_fits(chunks, capacity),
        fed_all(Seq::empty(), Map::empty(), chunks, capacity).unwrap().0 == pending(
            concat_chunks(chunks),
        ),
    decreases chunks.len(),
{
    if chunks.len() == 0 {
        assert forall|k: int| 0 <= k <= chunks.len() implies pending(
            concat_chunks(#[trigger] chunks.take(k)),
        ).len() <= capacity by {
            assert(chunks.take(k) =~= chunks);
        }
    } else {
        let front = chunks.drop_last();
        lemma_fed_all_needs_room(front, capacity);
        lemma_resume_from_pending(concat_chunks(front), chunks.last());
        assert forall|k: int| 0 <= k <= chunks.len() implies pending(
            concat_chunks(#[trigger] chunks.take(k)),
        ).len() <= capacity by {
            if k < chunks.len() {
                assert(chunks.take(k) =~= front.take(k));
            } else {
                assert(chunks.take(k) =~= chunks);
            }
        }
    }
}

/// A run ends in an error wherever a tail outgrows the carry buffer: no
/// result is ever made of a truncated line.
pub proof fn lemma_run_needs_room(chunks: Seq<Seq<u8>>, capacity: int)
    requires
        0 <= capacity,
        !carry_fits(chunks, capacity),
    ensures
        run_result(chunks, capacity) is Err,
{
    if fed_all(Seq::empty(), Map::empty(), chunks, capacity) is Ok {
        lemma_fed_all_needs_room(chunks, capacity);
    }
}

} // verus!
