use vstd::prelude::*;

use crate::lines::{
    CARRIAGE_RETURN, NEW_LINE, ends_line, first_line_len, lines_of, text_lines, trim_line,
    lemma_first_line_len_bounds, lemma_first_line_len_is, lemma_last_line_unterminated,
    lemma_lines_of_append, lemma_one_line,
};
use crate::back_lines::{BackLines, Next};
use crate::scanner::{BackBufReader, ScanView, Step, fetch_len, initial, poll_spec, supply_spec};
use vstd::utf8::{decode_utf8, valid_utf8};

verus! {

/// The lines that a scanner in state `v` hands out when each block it asks
/// for is read from `s`, in the order in which it hands them out.
pub open spec fn drain(v: ScanView, s: Seq<u8>) -> Seq<Seq<u8>>
    decreases v.pos, v.lines.len(), v.rest.len(),
{
    if v.block_size == 0 || v.pos > s.len() {
        seq![]
    } else {
        match poll_spec(v).0 {
            Step::Line(l) => seq![l] + drain(poll_spec(v).1, s),
            Step::Fetch(start, len) => drain(
                supply_spec(v, s.subrange(start as int, (start + len) as int)),
                s,
            ),
            Step::End => seq![],
        }
    }
}

/// What a scanner over `s` hands out, from its first call on.
pub open spec fn backward_lines(s: Seq<u8>, block_size: nat) -> Seq<Seq<u8>> {
    drain(initial(s.len(), block_size), s)
}

/// How a scanner's state stands to the stream it reads: it is within the
/// stream, and its carry fragment is one line.
spec fn consistent(v: ScanView, s: Seq<u8>) -> bool {
    &&& v.block_size > 0
    &&& v.pos <= s.len()
    &&& first_line_len(v.rest) == v.rest.len()
}

proof fn lemma_drain(v: ScanView, s: Seq<u8>)
    requires
        consistent(v, s),
    ensures
        drain(v, s) == (lines_of(s.take(v.pos as int) + v.rest) + v.lines).reverse(),
    decreases v.pos, v.lines.len(), v.rest.len(),
{
    let unread = s.take(v.pos as int) + v.rest;
    let all = lines_of(unread) + v.lines;
    if v.lines.len() > 0 {
        let w = poll_spec(v).1;
        assert(lines_of(unread) + w.lines + seq![v.lines.last()] =~= all);
        lemma_drain(w, s);
        assert(all.reverse() =~= seq![v.lines.last()] + (lines_of(unread) + w.lines).reverse());
    } else if v.pos == 0 {
        assert(unread =~= v.rest);
        if v.rest.len() > 0 {
            lemma_one_line_when_first(v.rest);
            let w = poll_spec(v).1;
            assert(w.rest =~= Seq::<u8>::empty());
            assert(drain(w, s) == Seq::<Seq<u8>>::empty());
            assert(all =~= seq![v.rest]);
            assert(all.reverse() =~= seq![v.rest]);
        } else {
            assert(unread =~= Seq::<u8>::empty());
            assert(all =~= Seq::<Seq<u8>>::empty());
            assert(all.reverse() =~= Seq::<Seq<u8>>::empty());
        }
    } else {
        let n = fetch_len(v) as int;
        let start = v.pos - n;
        let block = s.subrange(start, v.pos as int);
        let w = supply_spec(v, block);
        let c = block + v.rest;
        let k = first_line_len(c) as int;
        let x = s.take(start);
        assert(x + c =~= unread);
        lemma_first_line_len_bounds(c);
        assert(c.take(k) + c.skip(k) =~= c);
        assert(x + c =~= (x + c.take(k)) + c.skip(k));
        if ends_line(c.take(k)) {
            let a = x + c.take(k);
            assert(a.last() == c.take(k).last());
            lemma_lines_of_append(a, c.skip(k));
        } else {
            assert(c.skip(k) =~= Seq::<u8>::empty());
            assert(lines_of(c.skip(k)) =~= Seq::<Seq<u8>>::empty());
            assert((x + c.take(k)) + c.skip(k) =~= x + c.take(k));
        }
        assert(w.pos == start);
        assert(s.take(w.pos as int) =~= x);
        assert(lines_of(c.skip(k)) + v.lines =~= lines_of(c.skip(k)));
        assert(lines_of(unread) == lines_of(s.take(w.pos as int) + w.rest) + w.lines);
        lemma_first_line_len_is(c.take(k), k);
        lemma_drain(w, s);
        assert(lines_of(unread) + v.lines =~= lines_of(unread));
    }
}

proof fn lemma_one_line_when_first(r: Seq<u8>)
    requires
        r.len() > 0,
        first_line_len(r) == r.len(),
    ensures
        lines_of(r) == seq![r],
{
    lemma_first_line_len_bounds(r);
    lemma_one_line(r);
}

/// Reading a stream backward gives its lines in reverse order, for every
/// stream and every block size, whatever the length of its lines: the lines,
/// each with its terminator, and the text that a forward reader gives.
pub proof fn lemma_backward_reverses_forward(s: Seq<u8>, block_size: nat)
    requires
        block_size > 0,
    ensures
        backward_lines(s, block_size) == lines_of(s).reverse(),
        backward_lines(s, block_size).map_values(|l: Seq<u8>| trim_line(l))
            == text_lines(s).reverse(),
{
    let v = initial(s.len(), block_size);
    assert(s.take(s.len() as int) + v.rest =~= s);
    assert(lines_of(s) + v.lines =~= lines_of(s));
    lemma_drain(v, s);
    assert(lines_of(s).reverse().map_values(|l: Seq<u8>| trim_line(l)) =~= text_lines(
        s,
    ).reverse());
}

/// A stream whose last byte is not a terminator still ends with a complete
/// line: the first one handed out is everything after its last terminator.
pub proof fn lemma_unterminated_last_line_first(s: Seq<u8>, block_size: nat)
    requires
        block_size > 0,
        s.len() > 0,
        s.last() != NEW_LINE,
    ensures
        backward_lines(s, block_size).len() > 0,
        ({
            let l = backward_lines(s, block_size)[0];
            &&& 0 < l.len() <= s.len()
            &&& l == s.skip(s.len() - l.len())
            &&& forall|i: int| 0 <= i < l.len() ==> l[i] != NEW_LINE
            &&& l.len() == s.len() || s[s.len() - l.len() - 1] == NEW_LINE
        }),
{
    lemma_backward_reverses_forward(s, block_size);
    lemma_last_line_unterminated(s);
    assert(lines_of(s).reverse()[0] == lines_of(s).last());
}

/// Once the scanner has said that the stream is done, it says so again, and
/// its state stays as it was.
pub proof fn lemma_end_stays(v: ScanView)
    requires
        poll_spec(v).0 == Step::End,
    ensures
        poll_spec(v).1 == v,
        poll_spec(poll_spec(v).1).0 == Step::End,
{
}

/// A line that ends with the terminator alone, or with a carriage return and
/// the terminator, is read without them; a carriage return after the
/// terminator stays, as the start of the next line.
pub proof fn lemma_terminator_normalization(body: Seq<u8>)
    requires
        forall|i: int| 0 <= i < body.len() ==> body[i] != NEW_LINE,
        body.len() == 0 || body.last() != CARRIAGE_RETURN,
    ensures
        text_lines(body.push(NEW_LINE)) == seq![body],
        text_lines(body.push(CARRIAGE_RETURN).push(NEW_LINE)) == seq![body],
        text_lines(body.push(NEW_LINE).push(CARRIAGE_RETURN)) == seq![body, seq![CARRIAGE_RETURN]],
{
    let a = body.push(NEW_LINE);
    lemma_one_line(a);
    assert(a.drop_last() =~= body);
    assert(text_lines(a) =~= seq![body]);

    let b = body.push(CARRIAGE_RETURN).push(NEW_LINE);
    assert forall|i: int| 0 <= i < b.len() - 1 implies b[i] != NEW_LINE by {
        if i < body.len() {
            assert(b[i] == body[i]);
        }
    }
    lemma_one_line(b);
    assert(b.drop_last().drop_last() =~= body);
    assert(text_lines(b) =~= seq![body]);

    let cr = seq![CARRIAGE_RETURN];
    let c = body.push(NEW_LINE).push(CARRIAGE_RETURN);
    assert(c =~= a + cr);
    lemma_lines_of_append(a, cr);
    lemma_one_line(cr);
    assert(lines_of(c) =~= seq![a, cr]);
    assert(text_lines(c) =~= seq![body, cr]);
}

/// The lines of `data`, the last one first, without their endings, read in
/// blocks of `block_size` bytes; or the first of them, in that order, that is
/// not UTF-8.
pub fn read_lines_back(data: &[u8], block_size: usize) -> (r: Result<Vec<String>, Vec<u8>>)
    requires
        block_size > 0,
    ensures
        ({
            let t = text_lines(data@).reverse();
            match r {
                Ok(out) => {
                    &&& forall|i: int| 0 <= i < t.len() ==> valid_utf8(#[trigger] t[i])
                    &&& out@.len() == t.len()
                    &&& forall|i: int| 0 <= i < t.len() ==> #[trigger] out@[i]@ == decode_utf8(t[i])
                },
                Err(b) => exists|i: int|
                    0 <= i < t.len() && !valid_utf8(#[trigger] t[i]) && b@ == t[i] && forall|j: int|
                        0 <= j < i ==> valid_utf8(t[j]),
            }
        }),
{
    let ghost all = backward_lines(data@, block_size as nat);
    proof {
        lemma_backward_reverses_forward(data@, block_size as nat);
    }
    let ghost t = text_lines(data@).reverse();
    assert(t == all.map_values(|l: Seq<u8>| trim_line(l)));
    let data_len = data.len();
    let mut lines = BackBufReader::with_block_size(data_len as u64, block_size).lines();
    let mut out: Vec<String> = Vec::new();
    let ghost mut emitted: Seq<Seq<u8>> = seq![];
    assert(all == emitted + drain(lines@, data@));
    loop
        invariant
            lines.wf(),
            lines@.block_size == block_size,
            lines@.pos <= data@.len(),
            data_len == data@.len(),
            t == text_lines(data@).reverse(),
            all == emitted + drain(lines@, data@),
            t == all.map_values(|l: Seq<u8>| trim_line(l)),
            out@.len() == emitted.len(),
            forall|i: int| 0 <= i < emitted.len() ==> valid_utf8(#[trigger] trim_line(emitted[i])),
            forall|i: int| 0 <= i < emitted.len() ==> #[trigger] out@[i]@ == decode_utf8(trim_line(emitted[i])),
        decreases lines@.pos, lines@.lines.len(), lines@.rest.len(),
    {
        let ghost v = lines@;
        let next = lines.next();
        match next {
            Next::Line(s) => {
                assert(poll_spec(v).0 is Line);
                let ghost l = poll_spec(v).0->Line_0;
                proof {
                    assert(drain(v, data@) == seq![l] + drain(lines@, data@));
                    assert(all == emitted.push(l) + drain(lines@, data@)) by {
                        assert(emitted + (seq![l] + drain(lines@, data@)) =~= emitted.push(l) + drain(lines@, data@));
                    }
                    emitted = emitted.push(l);
                }
                out.push(s);
            },
            Next::Invalid(b) => {
                assert(poll_spec(v).0 is Line);
                proof {
                    let l = poll_spec(v).0->Line_0;
                    let i = emitted.len() as int;
                    assert(drain(v, data@) == seq![l] + drain(lines@, data@));
                    assert(all[i] == l) by {
                        assert((emitted + (seq![l] + drain(lines@, data@)))[i] == l);
                    }
                    assert(t[i] == trim_line(l));
                    assert forall|j: int| 0 <= j < i implies valid_utf8(t[j]) by {
                        assert(all[j] == emitted[j]);
                    }
                    assert(b@ == t[i] && !valid_utf8(t[i]));
                }
                return Err(b);
            },
            Next::Fetch { start, len } => {
                assert(start + len == v.pos);
                let s = start as usize;
                let e = s + len;
                let mut block: Vec<u8> = Vec::with_capacity(len);
                let mut j: usize = s;
                while j < e
                    invariant
                        s <= j <= e,
                        e <= data@.len(),
                        block@ == data@.subrange(s as int, j as int),
                    decreases e - j,
                {
                    block.push(data[j]);
                    j = j + 1;
                    assert(block@ =~= data@.subrange(s as int, j as int));
                }
                assert(drain(v, data@) == drain(supply_spec(v, block@), data@));
                lines.supply(block);
            },
            Next::End => {
                proof {
                    assert(drain(v, data@) == Seq::<Seq<u8>>::empty());
                    assert(all =~= emitted);
                    assert(t.len() == emitted.len());
                    assert forall|i: int| 0 <= i < t.len() implies valid_utf8(#[trigger] t[i]) && out@[i]@ == decode_utf8(t[i]) by {
                        assert(t[i] == trim_line(emitted[i]));
                    }

                }
                return Ok(out);
            },
        }
    }
}

} // verus!
