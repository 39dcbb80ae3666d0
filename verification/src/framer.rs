//! Line framer: consumes the raw byte stream chunk by chunk and hands out
//! complete newline-delimited lines, buffering a partial line across chunk
//! boundaries.

use vstd::prelude::*;

verus! {

/// Splits a byte sequence at every newline (byte 10). The result holds one
/// segment more than there are newlines; the last segment is the (possibly
/// empty) tail after the final newline.
pub open spec fn split_lines(s: Seq<u8>) -> Seq<Seq<u8>>
    decreases s.len(),
{
    if s.len() == 0 {
        seq![Seq::<u8>::empty()]
    } else {
        let p = split_lines(s.drop_last());
        if s.last() == 10u8 {
            p.push(Seq::<u8>::empty())
        } else {
            p.update(p.len() - 1, p.last().push(s.last()))
        }
    }
}

proof fn lemma_split_lines_len(s: Seq<u8>)
    ensures
        split_lines(s).len() >= 1,
    decreases s.len(),
{
    if s.len() > 0 {
        lemma_split_lines_len(s.drop_last());
    }
}

/// A sequence without a newline splits into itself alone.
proof fn lemma_split_lines_whole(s: Seq<u8>)
    requires
        forall|k: int| 0 <= k < s.len() ==> s[k] != 10u8,
    ensures
        split_lines(s) == seq![s],
    decreases s.len(),
{
    if s.len() == 0 {
        assert(split_lines(s) =~~= seq![s]);
    } else {
        lemma_split_lines_whole(s.drop_last());
        assert(split_lines(s) =~~= seq![s]);
    }
}

/// Buffers bytes across chunk boundaries and hands out complete lines.
pub struct LineFramer {
    buf: Vec<u8>,
}

impl LineFramer {
    /// The bytes of the partial line buffered so far.
    pub closed spec fn pending(&self) -> Seq<u8> {
        self.buf@
    }

    /// A framer never buffers a newline: the byte that would complete a line
    /// always flushes the buffer instead.
    pub closed spec fn wf(&self) -> bool {
        forall|k: int| 0 <= k < self.buf@.len() ==> self.buf@[k] != 10u8
    }

    pub fn new() -> (r: Self)
        ensures
            r.pending() == Seq::<u8>::empty(),
            r.wf(),
    {
        LineFramer { buf: Vec::new() }
    }

    /// Feeds one chunk of the byte stream; returns every line the chunk
    /// completes, in order. The returned lines followed by the new pending
    /// tail are exactly the newline-split of the pending bytes plus the chunk.
    pub fn feed(&mut self, chunk: &Vec<u8>) -> (r: Vec<Vec<u8>>)
        requires
            old(self).wf(),
        ensures
            final(self).wf(),
            r@.map_values(|l: Vec<u8>| l@).push(final(self).pending()) == split_lines(
                old(self).pending() + chunk@,
            ),
    {
        let ghost start: Seq<u8> = self.buf@;
        let mut out: Vec<Vec<u8>> = Vec::new();
        let mut i: usize = 0;
        proof {
            assert(start + chunk@.take(0) =~= start);
            lemma_split_lines_whole(start);
            assert(out@.map_values(|l: Vec<u8>| l@).push(self.buf@) =~= seq![start]);
        }
        while i < chunk.len()
            invariant
                i <= chunk.len(),
                forall|k: int| 0 <= k < self.buf@.len() ==> self.buf@[k] != 10u8,
                out@.map_values(|l: Vec<u8>| l@).push(self.buf@) =~= split_lines(
                    start + chunk@.take(i as int),
                ),
            decreases chunk.len() - i,
        {
            let ghost pre: Seq<u8> = start + chunk@.take(i as int);
            let ghost segs: Seq<Seq<u8>> = split_lines(pre);
            let b = chunk[i];
            proof {
                assert(start + chunk@.take(i + 1) =~= pre.push(b));
                assert(pre.push(b).drop_last() =~= pre);
                assert(split_lines(pre.push(b)) == if b == 10u8 {
                    segs.push(Seq::<u8>::empty())
                } else {
                    segs.update(segs.len() - 1, segs.last().push(b))
                });
                lemma_split_lines_len(pre);
            }
            if b == 10u8 {
                let mut line: Vec<u8> = Vec::new();
                core::mem::swap(&mut line, &mut self.buf);
                out.push(line);
                proof {
                    assert(out@.map_values(|l: Vec<u8>| l@).push(self.buf@) =~= segs.push(
                        Seq::<u8>::empty(),
                    ));
                }
            } else {
                self.buf.push(b);
                proof {
                    assert(out@.map_values(|l: Vec<u8>| l@).push(self.buf@) =~= segs.update(
                        segs.len() - 1,
                        segs.last().push(b),
                    ));
                }
            }
            i += 1;
        }
        proof {
            assert(start + chunk@.take(chunk@.len() as int) =~= start + chunk@);
        }
        out
    }

    /// Ends the stream: hands back the buffered tail (a final line that
    /// arrived without a trailing newline), if any.
    pub fn remainder(self) -> (r: Option<Vec<u8>>)
        ensures
            match r {
                None => self.pending().len() == 0,
                Some(l) => l@ == self.pending() && l@.len() > 0,
            },
    {
        if self.buf.len() == 0 {
            None
        } else {
            Some(self.buf)
        }
    }
}

} // verus!
