use vstd::prelude::*;

use crate::lines::{
    NEW_LINE, first_line_len, lines_of, lemma_first_line_len_is,
    lemma_lines_of_append, lemma_one_line,
};

verus! {

/// The size of a block when none is given.
pub const BUF_SIZE: usize = 512;

/// What the scanner holds, as values.
pub ghost struct ScanView {
    /// Bytes fetched at most per block.
    pub block_size: nat,
    /// How many bytes at the start of the stream are still unread.
    pub pos: nat,
    /// The carry fragment: the start of the oldest line read so far, whose
    /// beginning may lie in the unread part.
    pub rest: Seq<u8>,
    /// Lines found in the last block, in the order of the stream, each with
    /// its terminator, but for a last line of the stream that has none.
    pub lines: Seq<Seq<u8>>,
}

/// What a call to `poll` asks for or hands out.
pub ghost enum Step {
    Line(Seq<u8>),
    Fetch(nat, nat),
    End,
}

/// How many bytes the next fetch reads: one block, or what is left before it.
pub open spec fn fetch_len(v: ScanView) -> nat {
    if v.pos < v.block_size {
        v.pos
    } else {
        v.block_size
    }
}

/// One step of the scanner: the most recent buffered line; once the start of
/// the stream has been read, the carry fragment and then the end; otherwise
/// the block of bytes that ends where the read part begins.
pub open spec fn poll_spec(v: ScanView) -> (Step, ScanView) {
    if v.lines.len() > 0 {
        (Step::Line(v.lines.last()), ScanView { lines: v.lines.drop_last(), ..v })
    } else if v.pos == 0 {
        if v.rest.len() > 0 {
            (Step::Line(v.rest), ScanView { rest: seq![], ..v })
        } else {
            (Step::End, v)
        }
    } else {
        (Step::Fetch((v.pos - fetch_len(v)) as nat, fetch_len(v)), v)
    }
}

/// The state after a fetched block: the block and the carry fragment are read
/// as one piece; its first line becomes the new carry fragment and the lines
/// after it are buffered.
pub open spec fn supply_spec(v: ScanView, block: Seq<u8>) -> ScanView {
    let combined = block + v.rest;
    let k = first_line_len(combined) as int;
    ScanView {
        block_size: v.block_size,
        pos: (v.pos - block.len()) as nat,
        rest: combined.take(k),
        lines: lines_of(combined.skip(k)),
    }
}

/// The scanner's state at the start, over a stream of `len` bytes.
pub open spec fn initial(len: nat, block_size: nat) -> ScanView {
    ScanView { block_size, pos: len, rest: seq![], lines: seq![] }
}

/// What `poll` returns.
pub enum Poll {
    /// A line, with its terminator when it has one.
    Line(Vec<u8>),
    /// Read `len` bytes from position `start` and hand them to `supply`.
    Fetch { start: u64, len: usize },
    /// Every line has been handed out.
    End,
}

impl View for Poll {
    type V = Step;

    open spec fn view(&self) -> Step {
        match self {
            Poll::Line(l) => Step::Line(l@),
            Poll::Fetch { start, len } => Step::Fetch(*start as nat, *len as nat),
            Poll::End => Step::End,
        }
    }
}

/// Walks a stream from its end to its start in blocks and hands out its lines,
/// the last one first. It does no I/O of its own: `poll` says which block it
/// needs next, and the caller reads it and hands it to `supply`.
pub struct BackBufReader {
    block_size: usize,
    pos: u64,
    rest_buf: Vec<u8>,
    lines: Vec<Vec<u8>>,
}

impl View for BackBufReader {
    type V = ScanView;

    closed spec fn view(&self) -> ScanView {
        ScanView {
            block_size: self.block_size as nat,
            pos: self.pos as nat,
            rest: self.rest_buf@,
            lines: self.lines@.map_values(|l: Vec<u8>| l@),
        }
    }
}

impl BackBufReader {
    /// The scanner's own invariant: blocks are never empty.
    pub open spec fn wf(&self) -> bool {
        self@.block_size > 0
    }

    /// A scanner over a stream of `stream_len` bytes, with blocks of the
    /// default size.
    pub fn new(stream_len: u64) -> (r: BackBufReader)
        ensures
            r.wf(),
            r@ == initial(stream_len as nat, BUF_SIZE as nat),
    {
        BackBufReader::with_block_size(stream_len, BUF_SIZE)
    }

    /// A scanner over a stream of `stream_len` bytes, with blocks of
    /// `block_size` bytes.
    pub fn with_block_size(stream_len: u64, block_size: usize) -> (r: BackBufReader)
        requires
            block_size > 0,
        ensures
            r.wf(),
            r@ == initial(stream_len as nat, block_size as nat),
    {
        let r = BackBufReader { block_size, pos: stream_len, rest_buf: Vec::new(), lines: Vec::new() };
        assert(r@.lines =~= Seq::<Seq<u8>>::empty());
        r
    }

    /// Hands out the next line, older than the last one, or asks for a block,
    /// or says that the stream is done. After `End` it keeps saying so.
    pub fn poll(&mut self) -> (r: Poll)
        requires
            old(self).wf(),
        ensures
            final(self).wf(),
            (r@, final(self)@) == poll_spec(old(self)@),
    {
        if self.lines.len() > 0 {
            let line = self.lines.pop().unwrap();
            proof {
                assert(self@.lines =~= old(self)@.lines.drop_last());
            }
            return Poll::Line(line);
        }
        if self.pos == 0 {
            if self.rest_buf.len() > 0 {
                let mut line = Vec::new();
                line.append(&mut self.rest_buf);
                assert(line@ =~= old(self)@.rest);
                return Poll::Line(line);
            }
            return Poll::End;
        }
        let len: u64 = if self.pos < self.block_size as u64 {
            self.pos
        } else {
            self.block_size as u64
        };
        Poll::Fetch { start: self.pos - len, len: len as usize }
    }

    /// Takes the block that `poll` asked for: the bytes of the stream from
    /// `start` on, `len` of them.
    pub fn supply(&mut self, block: Vec<u8>)
        requires
            old(self).wf(),
            old(self)@.lines.len() == 0,
            old(self)@.pos > 0,
            block@.len() == fetch_len(old(self)@),
        ensures
            final(self).wf(),
            final(self)@ == supply_spec(old(self)@, block@),
    {
        let ghost v = self@;
        let blen = block.len();
        let mut combined = block;
        combined.append(&mut self.rest_buf);
        let ghost c = combined@;
        assert(c =~= block@ + v.rest);
        let n = combined.len();

        // the first line goes to the carry fragment
        let mut carry: Vec<u8> = Vec::new();
        let mut i: usize = 0;
        let mut seen = false;
        while i < n && !seen
            invariant
                combined@ == c,
                n == c.len(),
                i <= n,
                carry@ == c.take(i as int),
                forall|j: int| 0 <= j < i - 1 ==> c[j] != NEW_LINE,
                seen <==> (i > 0 && c[i - 1] == NEW_LINE),
            decreases n - i,
        {
            let b = combined[i];
            carry.push(b);
            if b == NEW_LINE {
                seen = true;
            }
            i = i + 1;
            assert(carry@ =~= c.take(i as int));
        }
        proof {
            lemma_first_line_len_is(c, i as int);
        }
        let ghost k = i as int;
        let ghost tail = c.skip(k);

        // the lines after it are buffered
        let mut lines: Vec<Vec<u8>> = Vec::new();
        let mut line: Vec<u8> = Vec::new();
        while i < n
            invariant
                combined@ == c,
                n == c.len(),
                0 <= k <= i <= n,
                tail == c.skip(k),
                line.len() <= i - k,
                line@ == c.subrange(i - line.len(), i as int),
                forall|j: int| 0 <= j < line.len() ==> line@[j] != NEW_LINE,
                lines_of(tail) == lines@.map_values(|l: Vec<u8>| l@) + lines_of(
                    c.subrange(i - line.len(), n as int),
                ),
            decreases n - i,
        {
            let ghost start = i - line.len();
            let b = combined[i];
            line.push(b);
            i = i + 1;
            assert(line@ =~= c.subrange(start, i as int));
            if b == NEW_LINE {
                proof {
                    let l = line@;
                    let after = c.subrange(i as int, n as int);
                    assert(c.subrange(start, n as int) =~= l + after);
                    lemma_lines_of_append(l, after);
                    lemma_one_line(l);
                }
                let ghost before = lines@.map_values(|l: Vec<u8>| l@);
                lines.push(line);
                line = Vec::new();
                proof {
                    assert(lines@.map_values(|l: Vec<u8>| l@) =~= before.push(
                        c.subrange(start, i as int),
                    ));
                    assert(c.subrange(i - line.len(), n as int) =~= c.subrange(i as int, n as int));
                }
            }
        }
        proof {
            let piece = c.subrange(i - line.len(), n as int);
            assert(piece =~= line@);
            if line.len() > 0 {
                lemma_one_line(line@);
            } else {
                assert(lines_of(piece) =~= Seq::<Seq<u8>>::empty());
            }
        }
        if line.len() > 0 {
            lines.push(line);
        }
        self.rest_buf = carry;
        self.lines = lines;
        self.pos = self.pos - blen as u64;
        proof {
            assert(self@.lines =~= lines_of(tail));
        }
    }
}

} // verus!
