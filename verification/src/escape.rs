use vstd::prelude::*;
use vstd::string::StringSliceAdditionalSpecFns;
use crate::ascii::{LT, GT, AMP, APOS, QUOT, HASH, SEMI};

verus! {

/// The five characters that HTML-escaping replaces in literal text.
pub open spec fn is_escaped_byte(b: u8) -> bool {
    b == LT || b == GT || b == AMP || b == APOS || b == QUOT
}

/// The replacement for a single byte: one of the five special bytes becomes
/// its HTML entity, every other byte passes through unchanged.
pub open spec fn escape_byte(b: u8) -> Seq<u8> {
    if b == LT {
        seq![AMP, 108u8, 116u8, SEMI]  // "&lt;"
    } else if b == GT {
        seq![AMP, 103u8, 116u8, SEMI]  // "&gt;"
    } else if b == AMP {
        seq![AMP, 97u8, 109u8, 112u8, SEMI]  // "&amp;"
    } else if b == APOS {
        seq![AMP, HASH, 51u8, 57u8, SEMI]  // "&#39;"
    } else if b == QUOT {
        seq![AMP, 113u8, 117u8, 111u8, 116u8, SEMI]  // "&quot;"
    } else {
        seq![b]
    }
}

/// HTML-escaping of a byte string: each byte replaced by `escape_byte`.
pub open spec fn escape_bytes(s: Seq<u8>) -> Seq<u8>
    decreases s.len(),
{
    if s.len() == 0 {
        Seq::empty()
    } else {
        escape_byte(s.first()) + escape_bytes(s.drop_first())
    }
}

/// Appends the HTML-escaped form of `text` to `out`.
#[verifier::rlimit(60)]
pub fn escape_push(out: &mut Vec<u8>, text: &[u8])
    ensures
        final(out)@ == old(out)@ + escape_bytes(text@),
{
    let n = text.len();
    assert(text@.skip(0) == text@);
    for i in 0..n
        invariant
            n == text@.len(),
            out@ == old(out)@ + escape_bytes(text@.take(i as int)),
    {
        let b = text[i];
        if b == LT {
            out.push(AMP);
            out.push(108);  // 'l'
            out.push(116);  // 't'
            out.push(SEMI);
        } else if b == GT {
            out.push(AMP);
            out.push(103);  // 'g'
            out.push(116);  // 't'
            out.push(SEMI);
        } else if b == AMP {
            out.push(AMP);
            out.push(97);  // 'a'
            out.push(109);  // 'm'
            out.push(112);  // 'p'
            out.push(SEMI);
        } else if b == APOS {
            out.push(AMP);
            out.push(HASH);
            out.push(51);  // '3'
            out.push(57);  // '9'
            out.push(SEMI);
        } else if b == QUOT {
            out.push(AMP);
            out.push(113);  // 'q'
            out.push(117);  // 'u'
            out.push(111);  // 'o'
            out.push(116);  // 't'
            out.push(SEMI);
        } else {
            out.push(b);
        }
        proof {
            assert(text@.take(i + 1).drop_last() == text@.take(i as int));
            assert(text@.take(i + 1).last() == text@[i as int]);
            lemma_escape_bytes_snoc(text@.take(i + 1));
        }
    }
    assert(text@.take(n as int) == text@);
}

/// Splitting off the last byte splits the escaped form accordingly.
proof fn lemma_escape_bytes_snoc(s: Seq<u8>)
    requires
        s.len() > 0,
    ensures
        escape_bytes(s) == escape_bytes(s.drop_last()) + escape_byte(s.last()),
    decreases s.len(),
{
    if s.len() == 1 {
        assert(s.drop_first().len() == 0);
        assert(s.drop_last().len() == 0);
        assert(escape_bytes(s.drop_first()) =~= Seq::<u8>::empty());
        assert(escape_bytes(s.drop_last()) =~= Seq::<u8>::empty());
        assert(s.first() == s.last());
        assert(escape_bytes(s) =~= escape_bytes(s.drop_last()) + escape_byte(s.last()));
    } else {
        lemma_escape_bytes_snoc(s.drop_first());
        assert(s.drop_first().drop_last() == s.drop_last().drop_first());
        assert(s.drop_last().first() == s.first());
        assert(s.drop_first().last() == s.last());
        assert(escape_bytes(s) =~= escape_bytes(s.drop_last()) + escape_byte(s.last()));
    }
}

/// Escaping a non-empty string yields a non-empty string.
pub proof fn lemma_escape_bytes_len(s: Seq<u8>)
    ensures
        escape_bytes(s).len() >= s.len(),
    decreases s.len(),
{
    if s.len() > 0 {
        lemma_escape_bytes_len(s.drop_first());
    }
}

/// Wrapper that pairs a string with its HTML-escaped rendering.
pub struct Escape<'a>(pub &'a str);

impl<'a> Escape<'a> {
    /// The HTML-escaped form of the wrapped string's UTF-8 bytes.
    pub fn to_escaped_bytes(&self) -> (r: Vec<u8>)
        ensures
            r@ == escape_bytes(self.0.spec_bytes()),
    {
        let mut out: Vec<u8> = Vec::new();
        let bytes = self.0.as_bytes();
        escape_push(&mut out, bytes);
        out
    }
}

} // verus!
