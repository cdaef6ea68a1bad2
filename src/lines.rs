use vstd::prelude::*;

verus! {

/// The byte that ends a line.
pub const NEW_LINE: u8 = 10;

/// The byte that may stand just before the terminator (a "\r\n" ending).
pub const CARRIAGE_RETURN: u8 = 13;

/// Length of the first line of `s`, its terminator included; all of `s`
/// when `s` holds no terminator.
pub open spec fn first_line_len(s: Seq<u8>) -> nat
    decreases s.len(),
{
    if s.len() == 0 {
        0
    } else if s[0] == NEW_LINE {
        1
    } else {
        1 + first_line_len(s.drop_first())
    }
}

/// The lines of `s` in the order in which they stand, each with its
/// terminator; a last piece without a terminator is a line too.
pub open spec fn lines_of(s: Seq<u8>) -> Seq<Seq<u8>>
    decreases s.len(),
    via lines_of_decreases
{
    if s.len() == 0 {
        seq![]
    } else {
        let k = first_line_len(s) as int;
        seq![s.take(k)] + lines_of(s.skip(k))
    }
}

#[via_fn]
proof fn lines_of_decreases(s: Seq<u8>) {
    if s.len() > 0 {
        lemma_first_line_len_bounds(s);
    }
}

/// True when `s` is empty or its last byte is the terminator: nothing of a
/// later line can then be glued onto its end.
pub open spec fn ends_line(s: Seq<u8>) -> bool {
    s.len() == 0 || s.last() == NEW_LINE
}

/// A line as a reader hands it out: one trailing terminator removed, and then,
/// only if one was removed, one carriage return before it.
pub open spec fn trim_line(l: Seq<u8>) -> Seq<u8> {
    if l.len() > 0 && l.last() == NEW_LINE {
        let m = l.drop_last();
        if m.len() > 0 && m.last() == CARRIAGE_RETURN {
            m.drop_last()
        } else {
            m
        }
    } else {
        l
    }
}

/// The lines of `s` with their endings removed, in the order in which a
/// forward reader meets them.
pub open spec fn text_lines(s: Seq<u8>) -> Seq<Seq<u8>> {
    lines_of(s).map_values(|l: Seq<u8>| trim_line(l))
}

pub proof fn lemma_first_line_len_bounds(s: Seq<u8>)
    ensures
        first_line_len(s) <= s.len(),
        s.len() > 0 ==> first_line_len(s) >= 1,
        forall|i: int| 0 <= i < first_line_len(s) - 1 ==> s[i] != NEW_LINE,
        first_line_len(s) == s.len() || s[first_line_len(s) - 1] == NEW_LINE,
    decreases s.len(),
{
    if s.len() > 0 && s[0] != NEW_LINE {
        let t = s.drop_first();
        lemma_first_line_len_bounds(t);
        assert forall|i: int| 0 <= i < first_line_len(s) - 1 implies s[i] != NEW_LINE by {
            if i > 0 {
                assert(s[i] == t[i - 1]);
            }
        }
    }
}

/// `first_line_len` is the one length that ends at the first terminator or
/// at the end.
pub proof fn lemma_first_line_len_is(s: Seq<u8>, k: int)
    requires
        0 <= k <= s.len(),
        s.len() > 0 ==> k > 0,
        forall|i: int| 0 <= i < k - 1 ==> s[i] != NEW_LINE,
        k == s.len() || s[k - 1] == NEW_LINE,
    ensures
        first_line_len(s) == k,
    decreases s.len(),
{
    if s.len() > 0 && s[0] != NEW_LINE {
        let t = s.drop_first();
        assert forall|i: int| 0 <= i < k - 2 implies t[i] != NEW_LINE by {
            assert(t[i] == s[i + 1]);
        }
        if k - 1 < t.len() {
            assert(t[k - 2] == s[k - 1]);
        }
        lemma_first_line_len_is(t, k - 1);
    } else if s.len() > 0 {
        if k > 1 {
            assert(s[0] != NEW_LINE);
        }
    }
}

/// A piece without a terminator but at its end is one line.
pub proof fn lemma_one_line(s: Seq<u8>)
    requires
        s.len() > 0,
        forall|i: int| 0 <= i < s.len() - 1 ==> s[i] != NEW_LINE,
    ensures
        first_line_len(s) == s.len(),
        lines_of(s) == seq![s],
{
    lemma_first_line_len_is(s, s.len() as int);
    assert(s.take(s.len() as int) =~= s);
    assert(s.skip(s.len() as int) =~= Seq::<u8>::empty());
    assert(lines_of(s.skip(s.len() as int)) == Seq::<Seq<u8>>::empty());
    assert(lines_of(s) =~= seq![s]);
}

/// Where `a` ends a line, the lines of `a + b` are those of `a` followed by
/// those of `b`.
pub proof fn lemma_lines_of_append(a: Seq<u8>, b: Seq<u8>)
    requires
        ends_line(a),
    ensures
        lines_of(a + b) == lines_of(a) + lines_of(b),
    decreases a.len(),
{
    if a.len() == 0 {
        assert(a + b =~= b);
        assert(lines_of(a) + lines_of(b) =~= lines_of(b));
    } else {
        let ab = a + b;
        let k = first_line_len(a) as int;
        lemma_first_line_len_bounds(a);
        assert(ab[a.len() - 1] == NEW_LINE);
        assert forall|i: int| 0 <= i < k - 1 implies ab[i] != NEW_LINE by {
            assert(ab[i] == a[i]);
        }
        assert(ab[k - 1] == a[k - 1]);
        lemma_first_line_len_is(ab, k);
        assert(ab.take(k) =~= a.take(k));
        let a2 = a.skip(k);
        assert(ab.skip(k) =~= a2 + b);
        if a2.len() > 0 {
            assert(a2.last() == a.last());
        }
        lemma_lines_of_append(a2, b);
        assert(lines_of(ab) =~= seq![a.take(k)] + (lines_of(a2) + lines_of(b)));
    }
}

/// Where `s` does not end with a terminator, its last line is the longest
/// end of `s` that holds none.
pub proof fn lemma_last_line_unterminated(s: Seq<u8>)
    requires
        s.len() > 0,
        s.last() != NEW_LINE,
    ensures
        lines_of(s).len() > 0,
        ({
            let l = lines_of(s).last();
            &&& 0 < l.len() <= s.len()
            &&& l == s.skip(s.len() - l.len())
            &&& forall|i: int| 0 <= i < l.len() ==> l[i] != NEW_LINE
            &&& l.len() == s.len() || s[s.len() - l.len() - 1] == NEW_LINE
        }),
    decreases s.len(),
{
    let k = first_line_len(s) as int;
    lemma_first_line_len_bounds(s);
    let t = s.skip(k);
    if t.len() == 0 {
        assert(lines_of(t) =~= Seq::<Seq<u8>>::empty());
        assert(lines_of(s) =~= seq![s.take(k)]);
        assert(s.take(k) =~= s);
        assert(s.skip(0) =~= s);
    } else {
        assert(t.last() == s.last());
        lemma_last_line_unterminated(t);
        let l = lines_of(t).last();
        assert(lines_of(s).last() == l);
        assert(s.skip(s.len() - l.len()) =~= t.skip(t.len() - l.len()));
        if l.len() == t.len() {
            assert(s[s.len() - l.len() - 1] == s[k - 1]);
        } else {
            assert(s[s.len() - l.len() - 1] == t[t.len() - l.len() - 1]);
        }
    }
}

} // verus!
