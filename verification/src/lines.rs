use vstd::prelude::*;
use crate::ascii::NEWLINE;

verus! {

/// The lines of `s` that remain when `cur` holds the bytes of the current,
/// still unterminated line: every newline byte ends a line (newline
/// included), and a final unterminated fragment forms a last line when it
/// is non-empty.
pub open spec fn lines_from(s: Seq<u8>, cur: Seq<u8>) -> Seq<Seq<u8>>
    decreases s.len(),
{
    if s.len() == 0 {
        if cur.len() == 0 {
            Seq::empty()
        } else {
            seq![cur]
        }
    } else if s[0] == NEWLINE {
        seq![cur.push(NEWLINE)] + lines_from(s.drop_first(), Seq::empty())
    } else {
        lines_from(s.drop_first(), cur.push(s[0]))
    }
}

/// The lines of a source text: maximal substrings ending at a newline
/// (newline included), plus the final substring if the text does not end
/// in one.
pub open spec fn lines_of(s: Seq<u8>) -> Seq<Seq<u8>> {
    lines_from(s, Seq::empty())
}

/// Splits a source text into its lines.
pub fn split_lines(code: &[u8]) -> (r: Vec<Vec<u8>>)
    ensures
        r.deep_view() == lines_of(code@),
{
    let mut out: Vec<Vec<u8>> = Vec::new();
    let mut cur: Vec<u8> = Vec::new();
    let n = code.len();
    assert(code@.skip(0) == code@);
    for i in 0..n
        invariant
            n == code@.len(),
            lines_of(code@) == out.deep_view() + lines_from(code@.skip(i as int), cur@),
    {
        let ghost prev_out = out.deep_view();
        let ghost prev_cur = cur@;
        let b = code[i];
        if b == NEWLINE {
            cur.push(NEWLINE);
            out.push(cur);
            cur = Vec::new();
            proof {
                assert(out.deep_view() =~~= prev_out + seq![prev_cur.push(NEWLINE)]);
                assert(code@.skip(i as int).drop_first() == code@.skip(i + 1));
                assert(lines_from(code@.skip(i as int), prev_cur) == seq![prev_cur.push(
                    NEWLINE,
                )] + lines_from(code@.skip(i + 1), Seq::empty()));
                assert(out.deep_view() + lines_from(code@.skip(i + 1), cur@) =~~= prev_out
                    + lines_from(code@.skip(i as int), prev_cur));
            }
        } else {
            cur.push(b);
            proof {
                assert(code@.skip(i as int).drop_first() == code@.skip(i + 1));
                assert(code@.skip(i as int)[0] == code@[i as int]);
                assert(lines_from(code@.skip(i as int), prev_cur) == lines_from(
                    code@.skip(i + 1),
                    prev_cur.push(b),
                ));
            }
        }
    }
    assert(code@.skip(n as int).len() == 0);
    if cur.len() > 0 {
        let ghost prev_out = out.deep_view();
        let ghost prev_cur = cur@;
        out.push(cur);
        proof {
            assert(lines_from(code@.skip(n as int), prev_cur) == seq![prev_cur]);
            assert(out.deep_view() =~~= prev_out + seq![prev_cur]);
        }
    } else {
        assert(lines_from(code@.skip(n as int), cur@) =~~= Seq::<Seq<u8>>::empty());
        assert(out.deep_view() =~~= out.deep_view() + lines_from(code@.skip(n as int), cur@));
    }
    out
}

} // verus!
