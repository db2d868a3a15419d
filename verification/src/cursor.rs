//! A forward-only, zero-copy reading position over a byte buffer.

use vstd::prelude::*;
use vstd::slice::slice_subrange;

verus! {

/// The offset at which the longest run of bytes that satisfy `p` and start at
/// `pos` ends.
pub open spec fn run_end(buf: Seq<u8>, pos: int, p: spec_fn(u8) -> bool) -> int
    decreases buf.len() - pos,
{
    if 0 <= pos < buf.len() && p(buf[pos]) {
        run_end(buf, pos + 1, p)
    } else {
        pos
    }
}

/// A run ends at or after its start and inside the text, every byte of it
/// satisfies `p`, and the byte after it, if there is one, does not.
pub proof fn lemma_run_end(buf: Seq<u8>, pos: int, p: spec_fn(u8) -> bool)
    ensures
        pos <= run_end(buf, pos, p),
        0 <= pos <= buf.len() ==> run_end(buf, pos, p) <= buf.len(),
        forall|i: int|
            pos <= i < run_end(buf, pos, p) ==> 0 <= i < buf.len() && p(#[trigger] buf[i]),
        0 <= run_end(buf, pos, p) < buf.len() ==> !p(buf[run_end(buf, pos, p)]),
    decreases buf.len() - pos,
{
    if 0 <= pos < buf.len() && p(buf[pos]) {
        lemma_run_end(buf, pos + 1, p);
    }
}

/// A run ends at the one offset that `lemma_run_end` describes.
pub proof fn lemma_run_end_unique(buf: Seq<u8>, pos: int, p: spec_fn(u8) -> bool, end: int)
    requires
        0 <= pos <= end <= buf.len(),
        forall|i: int| pos <= i < end ==> p(#[trigger] buf[i]),
        end < buf.len() ==> !p(buf[end]),
    ensures
        run_end(buf, pos, p) == end,
    decreases end - pos,
{
    if pos < end {
        lemma_run_end_unique(buf, pos + 1, p, end);
    }
}

/// A cursor over a borrowed byte buffer.
///
/// The cursor is modelled by the text it reads, `text()`, and its offset in
/// that text, `pos()`. The bytes still to be read, `self@`, are the text from
/// `pos()` on. Reading at the front moves `pos()` forward and never changes
/// the text; only `pop_back` shortens the text, at its end. No operation
/// copies or writes a byte.
pub struct SliceReader<'a> {
    buf: &'a [u8],
    start: usize,
    end: usize,
}

impl<'a> View for SliceReader<'a> {
    type V = Seq<u8>;

    closed spec fn view(&self) -> Seq<u8> {
        self.buf@.subrange(self.start as int, self.end as int)
    }
}

impl<'a> SliceReader<'a> {
    /// The cursor stands inside its buffer. This holds of every cursor.
    #[verifier::type_invariant]
    pub closed spec fn wf(self) -> bool {
        self.start <= self.end <= self.buf@.len()
    }

    /// The text under the cursor: everything it has read and may still read.
    pub closed spec fn text(self) -> Seq<u8> {
        self.buf@.take(self.end as int)
    }

    /// The offset in `text()` of the next byte to be read.
    pub closed spec fn pos(self) -> nat {
        self.start as nat
    }

    /// A well-formed cursor stands inside its text, and what is left to read
    /// is the text from the cursor's offset on.
    pub proof fn lemma_view(self)
        requires
            self.wf(),
        ensures
            self.pos() <= self.text().len() <= usize::MAX,
            self@ == self.text().skip(self.pos() as int),
            self@.len() == self.text().len() - self.pos(),
    {
        assert(self@ =~= self.text().skip(self.pos() as int));
    }

    /// A cursor at the start of `data`.
    pub fn new(data: &'a [u8]) -> (rd: SliceReader<'a>)
        ensures
            rd.text() == data@,
            rd.pos() == 0,
            rd@ == data@,
    {
        let rd = SliceReader { buf: data, start: 0, end: data.len() };
        assert(rd.text() =~= data@);
        assert(rd@ =~= data@);
        rd
    }

    /// The number of bytes still to be read.
    pub fn len(&self) -> (n: usize)
        ensures
            n == self@.len(),
            n == self.text().len() - self.pos(),
    {
        proof {
            use_type_invariant(self);
            self.lemma_view();
        }
        self.end - self.start
    }

    /// Whether nothing is left to read.
    pub fn is_empty(&self) -> (b: bool)
        ensures
            b == (self@.len() == 0),
    {
        self.len() == 0
    }

    /// The offset of the next byte in the text.
    pub fn position(&self) -> (p: usize)
        ensures
            p == self.pos(),
            p <= self.text().len(),
    {
        proof {
            use_type_invariant(self);
            self.lemma_view();
        }
        self.start
    }

    /// The bytes still to be read.
    pub fn data(&self) -> (rest: &'a [u8])
        ensures
            rest@ == self@,
    {
        proof {
            use_type_invariant(self);
        }
        slice_subrange(self.buf, self.start, self.end)
    }

    /// The next byte, which stays unread.
    pub fn head(&self) -> (b: Option<u8>)
        ensures
            self@.len() == 0 ==> b is None,
            self@.len() > 0 ==> b == Some(self@[0]),
            b is None ==> self.pos() == self.text().len(),
            b is Some ==> self.pos() < self.text().len() && b == Some(
                self.text()[self.pos() as int],
            ),
    {
        proof {
            use_type_invariant(self);
            self.lemma_view();
        }
        if self.start < self.end {
            Some(self.buf[self.start])
        } else {
            None
        }
    }

    /// The bytes still to be read, cut in two at `pos`. The cursor stays
    /// where it is.
    pub fn split_at(&self, pos: usize) -> (parts: (&'a [u8], &'a [u8]))
        requires
            pos <= self@.len(),
        ensures
            parts.0@ == self@.take(pos as int),
            parts.1@ == self@.skip(pos as int),
    {
        proof {
            use_type_invariant(self);
        }
        let mid: usize = self.start + pos;
        let front = slice_subrange(self.buf, self.start, mid);
        let back = slice_subrange(self.buf, mid, self.end);
        assert(front@ =~= self@.take(pos as int));
        assert(back@ =~= self@.skip(pos as int));
        (front, back)
    }

    /// Takes the first `n` bytes off the front, or all of them where fewer
    /// than `n` are left.
    pub fn pop_front(&mut self, n: usize) -> (front: &'a [u8])
        ensures
            front@.len() == if n <= old(self)@.len() { n as nat } else { old(self)@.len() },
            front@ == old(self)@.take(front@.len() as int),
            final(self)@ == old(self)@.skip(front@.len() as int),
            final(self).text() == old(self).text(),
            final(self).pos() == old(self).pos() + front@.len(),
            old(self)@.len() == 0 ==> front@.len() == 0 && *final(self) == *old(self),
    {
        proof {
            use_type_invariant(&*self);
        }
        let avail: usize = self.len();
        let k: usize = if n <= avail { n } else { avail };
        let parts = self.split_at(k);
        self.start = self.start + k;
        assert(self@ =~= parts.1@);
        parts.0
    }

    /// Takes the longest run of bytes that `cond` accepts off the front. The
    /// run may be empty. What is left is empty or starts with a byte that
    /// `cond` refused.
    pub fn pop_front_while<F: Fn(u8) -> bool>(&mut self, cond: F) -> (front: &'a [u8])
        requires
            forall|i: int|
                0 <= i < old(self)@.len() ==> call_requires(cond, (#[trigger] old(self)@[i],)),
        ensures
            front@.len() <= old(self)@.len(),
            front@ == old(self)@.take(front@.len() as int),
            final(self)@ == old(self)@.skip(front@.len() as int),
            final(self).text() == old(self).text(),
            final(self).pos() == old(self).pos() + front@.len(),
            forall|i: int|
                0 <= i < front@.len() ==> call_ensures(cond, (#[trigger] front@[i],), true),
            final(self)@.len() > 0 ==> call_ensures(cond, (final(self)@[0],), false),
            old(self)@.len() == 0 ==> front@.len() == 0 && *final(self) == *old(self),
    {
        proof {
            use_type_invariant(&*self);
        }
        let avail: usize = self.len();
        let mut cnt: usize = 0;
        while cnt < avail
            invariant_except_break
                cnt <= avail,
            invariant
                *self == *old(self),
                avail == self@.len(),
                forall|i: int| 0 <= i < self@.len() ==> call_requires(cond, (#[trigger] self@[i],)),
                forall|i: int| 0 <= i < cnt ==> call_ensures(cond, (#[trigger] self@[i],), true),
            ensures
                cnt <= avail,
                cnt < avail ==> call_ensures(cond, (self@[cnt as int],), false),
            decreases avail - cnt,
        {
            proof {
                use_type_invariant(&*self);
            }
            let b: u8 = self.buf[self.start + cnt];
            assert(b == self@[cnt as int]);
            if cond(b) {
                cnt = cnt + 1;
            } else {
                break;
            }
        }
        let front = self.pop_front(cnt);
        assert(forall|i: int| 0 <= i < front@.len() ==> front@[i] == old(self)@[i]);
        front
    }

    /// Takes the last `n` bytes off the back, or all of them where fewer
    /// than `n` are left. The text ends where the bytes taken began.
    pub fn pop_back(&mut self, n: usize) -> (back: &'a [u8])
        ensures
            back@.len() == if n <= old(self)@.len() { n as nat } else { old(self)@.len() },
            back@ == old(self)@.skip(old(self)@.len() - back@.len()),
            final(self)@ == old(self)@.take(old(self)@.len() - back@.len()),
            final(self).text() == old(self).text().take(old(self).text().len() - back@.len()),
            final(self).pos() == old(self).pos(),
            old(self)@.len() == 0 ==> back@.len() == 0 && *final(self) == *old(self),
    {
        proof {
            use_type_invariant(&*self);
        }
        let avail: usize = self.len();
        let k: usize = if n <= avail { n } else { avail };
        let parts = self.split_at(avail - k);
        self.end = self.end - k;
        assert(self@ =~= parts.0@);
        assert(self.text() =~= old(self).text().take(old(self).text().len() - k));
        parts.1
    }
}

/// Where `pop_front_while` stops: the run that it takes off a cursor is the
/// longest run of bytes that satisfy `p`, where `p` says what its condition
/// accepts.
pub proof fn lemma_run_taken(
    before: SliceReader,
    after: SliceReader,
    run: Seq<u8>,
    p: spec_fn(u8) -> bool,
)
    requires
        before.wf(),
        after.wf(),
        after.text() == before.text(),
        after.pos() == before.pos() + run.len(),
        run.len() <= before@.len(),
        run == before@.take(run.len() as int),
        forall|i: int| 0 <= i < run.len() ==> p(#[trigger] run[i]),
        after@.len() > 0 ==> !p(after@[0]),
    ensures
        after.pos() == run_end(before.text(), before.pos() as int, p),
        run == before.text().subrange(before.pos() as int, after.pos() as int),
        before.pos() <= after.pos() <= before.text().len(),
{
    before.lemma_view();
    after.lemma_view();
    let text = before.text();
    let from = before.pos() as int;
    let to = after.pos() as int;
    assert forall|i: int| from <= i < to implies p(#[trigger] text[i]) by {
        assert(text[i] == run[i - from]);
    }
    assert(to < text.len() ==> text[to] == after@[0]);
    lemma_run_end_unique(text, from, p, to);
    assert(run =~= text.subrange(from, to));
}

/// Of two cursors over one text, the later has left what the earlier had
/// left, less the bytes between the two.
pub proof fn lemma_advanced(before: SliceReader, after: SliceReader)
    requires
        before.wf(),
        after.wf(),
        after.text() == before.text(),
        before.pos() <= after.pos(),
    ensures
        after@ == before@.skip(after.pos() - before.pos()),
{
    before.lemma_view();
    after.lemma_view();
    assert(after@ =~= before@.skip(after.pos() - before.pos()));
}

} // verus!
