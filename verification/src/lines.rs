//! What the logical lines of a byte sequence are.
//!
//! A terminator ends a line. The bytes after the last terminator are the
//! pending tail: they form a line of their own only once the input has ended,
//! and only when there are any.

use vstd::prelude::*;

verus! {

/// The line terminator.
pub const EOL: u8 = 0x0A;

/// No byte of `s` is a terminator.
pub open spec fn terminator_free(s: Seq<u8>) -> bool {
    forall|i: int| 0 <= i < s.len() ==> s[i] != EOL
}

/// The bytes after the last terminator of `content`; all of it where it holds
/// none.
pub open spec fn pending(content: Seq<u8>) -> Seq<u8>
    decreases content.len(),
{
    if content.len() == 0 {
        Seq::empty()
    } else if content.last() == EOL {
        Seq::empty()
    } else {
        pending(content.drop_last()).push(content.last())
    }
}

/// The terminated lines of `content`, in order, each without its terminator.
pub open spec fn complete_lines(content: Seq<u8>) -> Seq<Seq<u8>>
    decreases content.len(),
{
    if content.len() == 0 {
        Seq::empty()
    } else if content.last() == EOL {
        complete_lines(content.drop_last()).push(pending(content.drop_last()))
    } else {
        complete_lines(content.drop_last())
    }
}

/// The line that the end of input makes of a pending tail: none where the tail
/// is empty.
pub open spec fn final_line(tail: Seq<u8>) -> Seq<Seq<u8>> {
    if tail.len() == 0 {
        Seq::empty()
    } else {
        seq![tail]
    }
}

/// All logical lines of a finished input.
pub open spec fn lines_of(content: Seq<u8>) -> Seq<Seq<u8>> {
    complete_lines(content) + final_line(pending(content))
}

/// Each line followed by a terminator, one after the other.
pub open spec fn join_terminated(lines: Seq<Seq<u8>>) -> Seq<u8>
    decreases lines.len(),
{
    if lines.len() == 0 {
        Seq::empty()
    } else {
        join_terminated(lines.drop_last()) + lines.last().push(EOL)
    }
}

/// The pending tail holds no terminator and is a suffix of the content.
pub proof fn lemma_pending_is_suffix(content: Seq<u8>)
    ensures
        terminator_free(pending(content)),
        pending(content).len() <= content.len(),
        pending(content) == content.skip(content.len() - pending(content).len()),
        pending(content).len() < content.len() ==> content[content.len() - pending(content).len()
            - 1] == EOL,
    decreases content.len(),
{
    if content.len() == 0 {
        assert(pending(content) =~= content.skip(0));
    } else if content.last() == EOL {
        assert(pending(content) =~= content.skip(content.len() as int));
    } else {
        let front = content.drop_last();
        lemma_pending_is_suffix(front);
        let k = front.len() - pending(front).len();
        assert(pending(content) =~= content.skip(k));
    }
}

/// A sequence without a terminator is its own pending tail and has no complete
/// line.
pub proof fn lemma_terminator_free(s: Seq<u8>)
    requires
        terminator_free(s),
    ensures
        pending(s) == s,
        complete_lines(s) == Seq::<Seq<u8>>::empty(),
    decreases s.len(),
{
    if s.len() > 0 {
        lemma_terminator_free(s.drop_last());
        assert(s.drop_last().push(s.last()) =~= s);
    } else {
        assert(pending(s) =~= s);
    }
}

/// Nothing is lost or made up: the complete lines, each with its terminator
/// put back, followed by the pending tail, are the content again; and no line
/// holds a terminator.
pub proof fn lemma_lines_rebuild_content(content: Seq<u8>)
    ensures
        join_terminated(complete_lines(content)) + pending(content) == content,
        forall|i: int|
            0 <= i < complete_lines(content).len() ==> terminator_free(
                #[trigger] complete_lines(content)[i],
            ),
        terminator_free(pending(content)),
    decreases content.len(),
{
    lemma_pending_is_suffix(content);
    if content.len() == 0 {
        assert(join_terminated(complete_lines(content)) + pending(content) =~= content);
    } else {
        let front = content.drop_last();
        lemma_lines_rebuild_content(front);
        lemma_pending_is_suffix(front);
        if content.last() == EOL {
            let ls = complete_lines(content);
            assert(ls.drop_last() =~= complete_lines(front));
            assert(ls.last() == pending(front));
            assert(join_terminated(ls) == join_terminated(complete_lines(front)) + pending(
                front,
            ).push(EOL));
            assert(join_terminated(ls) + pending(content) =~= (join_terminated(
                complete_lines(front),
            ) + pending(front)).push(EOL));
            assert(front.push(EOL) =~= content);
        } else {
            assert(join_terminated(complete_lines(content)) + pending(content) =~= (
            join_terminated(complete_lines(front)) + pending(front)).push(content.last()));
            assert(front.push(content.last()) =~= content);
        }
    }
}

/// Scanning may stop anywhere and go on from the pending tail alone: the
/// lines of `a + b` are those of `a`, then those of `a`'s tail followed by `b`.
pub proof fn lemma_resume_from_pending(a: Seq<u8>, b: Seq<u8>)
    ensures
        complete_lines(a + b) == complete_lines(a) + complete_lines(pending(a) + b),
        pending(a + b) == pending(pending(a) + b),
    decreases b.len(),
{
    lemma_pending_is_suffix(a);
    if b.len() == 0 {
        assert(a + b =~= a);
        assert(pending(a) + b =~= pending(a));
        lemma_terminator_free(pending(a));
        assert(complete_lines(a) + Seq::<Seq<u8>>::empty() =~= complete_lines(a));
    } else {
        let bf = b.drop_last();
        lemma_resume_from_pending(a, bf);
        assert((a + b).drop_last() =~= a + bf);
        assert((pending(a) + b).drop_last() =~= pending(a) + bf);
        assert((a + b).last() == b.last());
        assert((pending(a) + b).last() == b.last());
        if b.last() == EOL {
            assert(complete_lines(a + b) =~= complete_lines(a) + complete_lines(pending(a) + b));
        }
    }
}

/// A run of bytes without a terminator only lengthens the pending tail.
pub proof fn lemma_append_run(content: Seq<u8>, run: Seq<u8>)
    requires
        terminator_free(run),
    ensures
        complete_lines(content + run) == complete_lines(content),
        pending(content + run) == pending(content) + run,
    decreases run.len(),
{
    if run.len() == 0 {
        assert(content + run =~= content);
        assert(pending(content) + run =~= pending(content));
    } else {
        let front = run.drop_last();
        lemma_append_run(content, front);
        assert((content + run).drop_last() =~= content + front);
        assert((content + run).last() == run.last());
        assert(pending(content) + run =~= (pending(content) + front).push(run.last()));
    }
}

/// A run of bytes without a terminator, then a terminator, completes one line:
/// the pending tail followed by the run.
pub proof fn lemma_append_terminated_run(content: Seq<u8>, run: Seq<u8>)
    requires
        terminator_free(run),
    ensures
        complete_lines(content + run.push(EOL)) == complete_lines(content).push(
            pending(content) + run,
        ),
        pending(content + run.push(EOL)) == Seq::<u8>::empty(),
{
    lemma_append_run(content, run);
    let whole = content + run.push(EOL);
    assert(whole.drop_last() =~= content + run);
    assert(whole.last() == EOL);
}

/// The byte sequences that a vector of lines, or of chunks, holds.
pub open spec fn byte_views(lines: Seq<Vec<u8>>) -> Seq<Seq<u8>> {
    Seq::new(lines.len(), |i: int| lines[i]@)
}

/// The chunks of an input, one after the other.
pub open spec fn concat_chunks(chunks: Seq<Seq<u8>>) -> Seq<u8>
    decreases chunks.len(),
{
    if chunks.len() == 0 {
        Seq::empty()
    } else {
        concat_chunks(chunks.drop_last()) + chunks.last()
    }
}

/// Cutting the list of chunks in two cuts the bytes in two.
pub proof fn lemma_concat_split(chunks: Seq<Seq<u8>>, k: int)
    requires
        0 <= k <= chunks.len(),
    ensures
        concat_chunks(chunks) == concat_chunks(chunks.take(k)) + concat_chunks(chunks.skip(k)),
    decreases chunks.len(),
{
    if k == chunks.len() {
        assert(chunks.take(k) =~= chunks);
        assert(chunks.skip(k) =~= Seq::<Seq<u8>>::empty());
        assert(concat_chunks(chunks) + Seq::<u8>::empty() =~= concat_chunks(chunks));
    } else {
        let front = chunks.drop_last();
        lemma_concat_split(front, k);
        assert(front.take(k) =~= chunks.take(k));
        assert(chunks.skip(k).drop_last() =~= front.skip(k));
        assert(chunks.skip(k).last() == chunks.last());
        assert(concat_chunks(chunks) =~= concat_chunks(chunks.take(k)) + (concat_chunks(
            front.skip(k),
        ) + chunks.last()));
    }
}

/// A line that begins with a run of bytes is at least as long as the run:
/// what follows a terminator-free `run` either completes a first line that
/// starts with it, or leaves a pending tail that starts with it.
pub proof fn lemma_first_line_extends(run: Seq<u8>, rest: Seq<u8>)
    requires
        terminator_free(run),
    ensures
        complete_lines(run + rest).len() > 0 ==> complete_lines(run + rest)[0].len() >= run.len(),
        complete_lines(run + rest).len() == 0 ==> pending(run + rest).len() >= run.len(),
    decreases rest.len(),
{
    if rest.len() == 0 {
        assert(run + rest =~= run);
        lemma_terminator_free(run);
    } else {
        let front = rest.drop_last();
        lemma_first_line_extends(run, front);
        assert((run + rest).drop_last() =~= run + front);
        assert((run + rest).last() == rest.last());
    }
}

/// The tail pending at any cut of an input is no longer than one of the
/// input's logical lines.
pub proof fn lemma_pending_within_a_line(before: Seq<u8>, after: Seq<u8>)
    ensures
        pending(before).len() == 0 || exists|i: int|
            0 <= i < lines_of(before + after).len() && pending(before).len() <= (#[trigger] lines_of(
                before + after,
            )[i]).len(),
{
    let tail = pending(before);
    if tail.len() > 0 {
        lemma_pending_is_suffix(before);
        lemma_resume_from_pending(before, after);
        lemma_first_line_extends(tail, after);
        let all = lines_of(before + after);
        let resumed = complete_lines(tail + after);
        if resumed.len() > 0 {
            let i = complete_lines(before).len() as int;
            assert(all[i] == resumed[0]);
        } else {
            let i = complete_lines(before + after).len() as int;
            assert(all[i] == pending(before + after));
        }
    }
}

/// There is one way only to cut a content into lines: whatever terminator-free
/// lines and tail rebuild the content are its complete lines and its pending
/// tail.
pub proof fn lemma_lines_are_unique(lines: Seq<Seq<u8>>, tail: Seq<u8>)
    requires
        forall|i: int| 0 <= i < lines.len() ==> terminator_free(#[trigger] lines[i]),
        terminator_free(tail),
    ensures
        complete_lines(join_terminated(lines) + tail) == lines,
        pending(join_terminated(lines) + tail) == tail,
    decreases lines.len(),
{
    lemma_append_run(join_terminated(lines), tail);
    if lines.len() == 0 {
        assert(pending(join_terminated(lines)) + tail =~= tail);
        assert(complete_lines(join_terminated(lines)) =~= lines);
    } else {
        let front = lines.drop_last();
        lemma_lines_are_unique(front, Seq::empty());
        assert(join_terminated(front) + Seq::<u8>::empty() =~= join_terminated(front));
        lemma_append_terminated_run(join_terminated(front), lines.last());
        assert(Seq::<u8>::empty() + lines.last() =~= lines.last());
        assert(front.push(lines.last()) =~= lines);
        assert(Seq::<u8>::empty() + tail =~= tail);
    }
}

} // verus!
