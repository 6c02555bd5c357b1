use vstd::prelude::*;
use crate::ascii::{QUOT, GT, SPACE, DIGIT_ZERO};

verus! {

// The fixed markup fragments, as byte strings.

/// The head of an opening span tag: `<span class="`.
pub open spec fn span_head_bytes() -> Seq<u8> {
    seq![60u8, 115u8, 112u8, 97u8, 110u8, 32u8, 99u8, 108u8, 97u8, 115u8, 115u8, 61u8, 34u8]
}

/// A closing span tag: `</span>`.
pub open spec fn span_close_bytes() -> Seq<u8> {
    seq![60u8, 47u8, 115u8, 112u8, 97u8, 110u8, 62u8]
}

/// The opening of the table wrapper: `<table><tbody>`.
pub open spec fn table_open_bytes() -> Seq<u8> {
    seq![60u8, 116u8, 97u8, 98u8, 108u8, 101u8, 62u8, 60u8, 116u8, 98u8, 111u8, 100u8, 121u8, 62u8]
}

/// The closing of the table wrapper: `</tbody></table>`.
pub open spec fn table_close_bytes() -> Seq<u8> {
    seq![60u8, 47u8, 116u8, 98u8, 111u8, 100u8, 121u8, 62u8, 60u8, 47u8, 116u8, 97u8, 98u8, 108u8, 101u8, 62u8]
}

/// The part of a row marker before the line number:
/// `<tr><td class="line" data-line="`.
pub open spec fn row_open_head_bytes() -> Seq<u8> {
    seq![60u8, 116u8, 114u8, 62u8, 60u8, 116u8, 100u8, 32u8, 99u8, 108u8, 97u8, 115u8, 115u8, 61u8, 34u8, 108u8, 105u8, 110u8, 101u8, 34u8, 32u8, 100u8, 97u8, 116u8, 97u8, 45u8, 108u8, 105u8, 110u8, 101u8, 61u8, 34u8]
}

/// The part of a row marker after the line number: `"/><td class="code">`.
pub open spec fn row_open_tail_bytes() -> Seq<u8> {
    seq![34u8, 47u8, 62u8, 60u8, 116u8, 100u8, 32u8, 99u8, 108u8, 97u8, 115u8, 115u8, 61u8, 34u8, 99u8, 111u8, 100u8, 101u8, 34u8, 62u8]
}

/// The closing of a table row: `</td></tr>`.
pub open spec fn row_close_bytes() -> Seq<u8> {
    seq![60u8, 47u8, 116u8, 100u8, 62u8, 60u8, 47u8, 116u8, 114u8, 62u8]
}

/// The decimal digits of `n`, most significant first.
pub open spec fn dec_bytes(n: nat) -> Seq<u8>
    decreases n,
{
    if n < 10 {
        seq![(DIGIT_ZERO + n) as u8]
    } else {
        dec_bytes(n / 10) + seq![(DIGIT_ZERO + n % 10) as u8]
    }
}

/// The full row-open marker for 1-based line number `n`.
pub open spec fn row_open_bytes(n: nat) -> Seq<u8> {
    row_open_head_bytes() + dec_bytes(n) + row_open_tail_bytes()
}

/// The space-separated class list of a scope's atoms, each atom preceded
/// by `prefix`.
pub open spec fn class_bytes(atoms: Seq<Seq<u8>>, prefix: Seq<u8>) -> Seq<u8>
    decreases atoms.len(),
{
    if atoms.len() == 0 {
        Seq::empty()
    } else {
        prefix + atoms[0] + class_tail_bytes(atoms.drop_first(), prefix)
    }
}

/// The continuation of a class list: every further atom is preceded by a
/// space and `prefix`.
pub open spec fn class_tail_bytes(atoms: Seq<Seq<u8>>, prefix: Seq<u8>) -> Seq<u8>
    decreases atoms.len(),
{
    if atoms.len() == 0 {
        Seq::empty()
    } else {
        seq![SPACE] + prefix + atoms[0] + class_tail_bytes(atoms.drop_first(), prefix)
    }
}

/// A whole opening span tag for a scope with the given class atoms.
pub open spec fn span_open_bytes(atoms: Seq<Seq<u8>>, prefix: Seq<u8>) -> Seq<u8> {
    span_head_bytes() + class_bytes(atoms, prefix) + seq![QUOT, GT]
}

/// How the class atoms of each scope are rendered: either bare, or each
/// preceded by a fixed prefix.
pub enum ClassStyle {
    Spaced,
    SpacedPrefixed { prefix: Vec<u8> },
}

impl ClassStyle {
    /// The byte prefix this style puts before every class atom.
    pub open spec fn spec_prefix(&self) -> Seq<u8> {
        match self {
            ClassStyle::Spaced => Seq::empty(),
            ClassStyle::SpacedPrefixed { prefix } => prefix@,
        }
    }
}

/// Appends all of `s` to `out`.
pub fn push_bytes(out: &mut Vec<u8>, s: &[u8])
    ensures
        final(out)@ == old(out)@ + s@,
{
    let n = s.len();
    for i in 0..n
        invariant
            n == s@.len(),
            out@ == old(out)@ + s@.take(i as int),
    {
        out.push(s[i]);
        assert(out@ =~= old(out)@ + s@.take(i + 1));
    }
    assert(s@.take(n as int) == s@);
}

/// Opens the table wrapper.
pub fn open_table(s: &mut Vec<u8>)
    ensures
        final(s)@ == old(s)@ + table_open_bytes(),
{
    let ghost s0 = s@;
    s.push(60);
    s.push(116);
    s.push(97);
    s.push(98);
    s.push(108);
    s.push(101);
    s.push(62);
    s.push(60);
    s.push(116);
    s.push(98);
    s.push(111);
    s.push(100);
    s.push(121);
    s.push(62);
    assert(s@ =~= s0 + table_open_bytes());
}

/// Closes the table wrapper.
pub fn close_table(s: &mut Vec<u8>)
    ensures
        final(s)@ == old(s)@ + table_close_bytes(),
{
    let ghost s0 = s@;
    s.push(60);
    s.push(47);
    s.push(116);
    s.push(98);
    s.push(111);
    s.push(100);
    s.push(121);
    s.push(62);
    s.push(60);
    s.push(47);
    s.push(116);
    s.push(97);
    s.push(98);
    s.push(108);
    s.push(101);
    s.push(62);
    assert(s@ =~= s0 + table_close_bytes());
}

/// Appends the decimal digits of `n`.
pub fn push_decimal(out: &mut Vec<u8>, n: usize)
    ensures
        final(out)@ == old(out)@ + dec_bytes(n as nat),
    decreases n,
{
    if n < 10 {
        out.push(DIGIT_ZERO + n as u8);
        assert(out@ =~= old(out)@ + dec_bytes(n as nat));
    } else {
        push_decimal(out, n / 10);
        out.push(DIGIT_ZERO + (n % 10) as u8);
        assert(out@ =~= old(out)@ + dec_bytes(n as nat));
    }
}

/// Opens a table row; `i` is the 0-based index of the line, so the marker
/// carries the 1-based line number `i + 1`.
pub fn open_row(s: &mut Vec<u8>, i: usize)
    requires
        i < usize::MAX,
    ensures
        final(s)@ == old(s)@ + row_open_bytes((i + 1) as nat),
{
    let ghost s0 = s@;
    s.push(60);
    s.push(116);
    s.push(114);
    s.push(62);
    s.push(60);
    s.push(116);
    s.push(100);
    s.push(32);
    s.push(99);
    s.push(108);
    s.push(97);
    s.push(115);
    s.push(115);
    s.push(61);
    s.push(34);
    s.push(108);
    s.push(105);
    s.push(110);
    s.push(101);
    s.push(34);
    s.push(32);
    s.push(100);
    s.push(97);
    s.push(116);
    s.push(97);
    s.push(45);
    s.push(108);
    s.push(105);
    s.push(110);
    s.push(101);
    s.push(61);
    s.push(34);
    let ghost s1 = s@;
    assert(s1 == s0 + row_open_head_bytes());
    push_decimal(s, i + 1);
    let ghost s2 = s@;
    s.push(34);
    s.push(47);
    s.push(62);
    s.push(60);
    s.push(116);
    s.push(100);
    s.push(32);
    s.push(99);
    s.push(108);
    s.push(97);
    s.push(115);
    s.push(115);
    s.push(61);
    s.push(34);
    s.push(99);
    s.push(111);
    s.push(100);
    s.push(101);
    s.push(34);
    s.push(62);
    assert(s@ =~= s2 + row_open_tail_bytes());
    assert(s@ =~= s0 + row_open_bytes((i + 1) as nat));
}

/// Closes a table row.
pub fn close_row(s: &mut Vec<u8>)
    ensures
        final(s)@ == old(s)@ + row_close_bytes(),
{
    let ghost s0 = s@;
    s.push(60);
    s.push(47);
    s.push(116);
    s.push(100);
    s.push(62);
    s.push(60);
    s.push(47);
    s.push(116);
    s.push(114);
    s.push(62);
    assert(s@ =~= s0 + row_close_bytes());
}

/// Appends an opening span tag for the scope whose class atoms are `atoms`.
pub fn push_span_open(out: &mut Vec<u8>, atoms: &Vec<Vec<u8>>, style: &ClassStyle)
    ensures
        final(out)@ == old(out)@ + span_open_bytes(atoms.deep_view(), style.spec_prefix()),
{
    let ghost s0 = out@;
    out.push(60);
    out.push(115);
    out.push(112);
    out.push(97);
    out.push(110);
    out.push(32);
    out.push(99);
    out.push(108);
    out.push(97);
    out.push(115);
    out.push(115);
    out.push(61);
    out.push(34);
    let ghost s1 = out@;
    assert(s1 == s0 + span_head_bytes());
    push_classes(out, atoms, style);
    out.push(QUOT);
    out.push(GT);
    assert(out@ =~= s0 + span_open_bytes(atoms.deep_view(), style.spec_prefix()));
}

/// Appends a closing span tag.
pub fn push_span_close(out: &mut Vec<u8>)
    ensures
        final(out)@ == old(out)@ + span_close_bytes(),
{
    let ghost s0 = out@;
    out.push(60);
    out.push(47);
    out.push(115);
    out.push(112);
    out.push(97);
    out.push(110);
    out.push(62);
    assert(out@ =~= s0 + span_close_bytes());
}

/// Appends the space-separated class list for `atoms` under `style`.
pub fn push_classes(out: &mut Vec<u8>, atoms: &Vec<Vec<u8>>, style: &ClassStyle)
    ensures
        final(out)@ == old(out)@ + class_bytes(atoms.deep_view(), style.spec_prefix()),
{
    let n = atoms.len();
    for i in 0..n
        invariant
            n == atoms@.len(),
            i == 0 ==> out@ == old(out)@,
            i > 0 ==> out@ + class_tail_bytes(atoms.deep_view().skip(i as int), style.spec_prefix())
                == old(out)@ + class_bytes(atoms.deep_view(), style.spec_prefix()),
    {
        if i != 0 {
            out.push(SPACE);
        }
        match style {
            ClassStyle::Spaced => {},
            ClassStyle::SpacedPrefixed { prefix } => {
                push_bytes(out, prefix.as_slice());
            },
        }
        push_bytes(out, atoms[i].as_slice());
        proof {
            lemma_class_tail_unfold(atoms.deep_view(), style.spec_prefix(), i as int);
        }
    }
    if n == 0 {
        assert(class_bytes(atoms.deep_view(), style.spec_prefix()) =~= Seq::<u8>::empty());
        assert(out@ =~= old(out)@ + class_bytes(atoms.deep_view(), style.spec_prefix()));
    } else {
        assert(atoms.deep_view().skip(n as int).len() == 0);
        assert(class_tail_bytes(atoms.deep_view().skip(n as int), style.spec_prefix())
            =~= Seq::<u8>::empty());
        assert(out@ =~= old(out)@ + class_bytes(atoms.deep_view(), style.spec_prefix()));
    }
}

/// Unfolds one step of the class list at position `i`.
proof fn lemma_class_tail_unfold(atoms: Seq<Seq<u8>>, prefix: Seq<u8>, i: int)
    requires
        0 <= i < atoms.len(),
    ensures
        i == 0 ==> class_bytes(atoms, prefix)
            == prefix + atoms[0] + class_tail_bytes(atoms.skip(1), prefix),
        i > 0 ==> class_tail_bytes(atoms.skip(i), prefix)
            == seq![SPACE] + prefix + atoms[i] + class_tail_bytes(atoms.skip(i + 1), prefix),
{
    if i == 0 {
        assert(atoms.drop_first() == atoms.skip(1));
    } else {
        assert(atoms.skip(i).drop_first() == atoms.skip(i + 1));
        assert(atoms.skip(i)[0] == atoms[i]);
    }
}

} // verus!
