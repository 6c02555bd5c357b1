use vstd::prelude::*;
use crate::ascii::{LT, GT, AMP, APOS, QUOT};
use crate::escape::{escape_byte, escape_bytes, is_escaped_byte};
use crate::render::{
    apply_op, apply_ops, carry_open_pieces, clamp_offset, closes, emit_text, init_state,
    line_pieces, long_line, table_rows, table_rows_from, LineState, Piece, RowBody, SpecEntry,
    SpecOp,
};

verus! {

// ---------------------------------------------------------------------------
// Escaping
// ---------------------------------------------------------------------------

/// Escaped text never holds a raw markup-relevant byte: no angle bracket
/// and no quote survives, so literal text can neither open a tag nor close
/// an attribute.
pub proof fn theorem_escape_no_raw_markup(s: Seq<u8>)
    ensures
        forall|i: int| 0 <= i < escape_bytes(s).len() ==> {
            &&& #[trigger] escape_bytes(s)[i] != LT
            &&& escape_bytes(s)[i] != GT
            &&& escape_bytes(s)[i] != QUOT
            &&& escape_bytes(s)[i] != APOS
        },
    decreases s.len(),
{
    if s.len() > 0 {
        theorem_escape_no_raw_markup(s.drop_first());
        let a = escape_byte(s.first());
        let b = escape_bytes(s.drop_first());
        assert(escape_bytes(s) == a + b);
        assert forall|i: int| 0 <= i < escape_bytes(s).len() implies {
            &&& #[trigger] escape_bytes(s)[i] != LT
            &&& escape_bytes(s)[i] != GT
            &&& escape_bytes(s)[i] != QUOT
            &&& escape_bytes(s)[i] != APOS
        } by {
            if i < a.len() {
                assert(escape_bytes(s)[i] == a[i]);
            } else {
                assert(escape_bytes(s)[i] == b[i - a.len()]);
            }
        }
    }
}

/// Escaping alters nothing but the five special bytes: text free of them
/// passes through unchanged.
pub proof fn theorem_escape_identity(s: Seq<u8>)
    requires
        forall|i: int| 0 <= i < s.len() ==> !is_escaped_byte(#[trigger] s[i]),
    ensures
        escape_bytes(s) == s,
    decreases s.len(),
{
    if s.len() > 0 {
        assert(!is_escaped_byte(s.first()));
        theorem_escape_identity(s.drop_first());
        assert(escape_bytes(s) =~= s);
    }
}

/// An escape entity stands at position `i` of `out`: the bytes from `i`
/// on begin with the full replacement of one of the five special bytes.
pub open spec fn entity_at(out: Seq<u8>, i: int) -> bool {
    exists|b: u8|
        is_escaped_byte(b) && i + escape_byte(b).len() <= out.len() && out.subrange(
            i,
            i + escape_byte(b).len() as int,
        ) == #[trigger] escape_byte(b)
}

/// Escaped text holds an ampersand only where one of the five entities
/// begins: together with the absence of raw angle brackets and quotes,
/// the special bytes survive only as whole escape entities.
pub proof fn theorem_escape_entities(s: Seq<u8>)
    ensures
        forall|i: int|
            0 <= i < escape_bytes(s).len() && escape_bytes(s)[i] == AMP ==> entity_at(
                escape_bytes(s),
                i,
            ),
    decreases s.len(),
{
    if s.len() > 0 {
        theorem_escape_entities(s.drop_first());
        let a = escape_byte(s.first());
        let b = escape_bytes(s.drop_first());
        assert(escape_bytes(s) == a + b);
        assert forall|i: int|
            0 <= i < escape_bytes(s).len() && escape_bytes(s)[i] == AMP implies entity_at(
            escape_bytes(s),
            i,
        ) by {
            if i < a.len() {
                assert(escape_bytes(s)[i] == a[i]);
                if is_escaped_byte(s.first()) {
                    // within a replacement, the ampersand leads it
                    assert(i == 0);
                    assert(escape_bytes(s).subrange(0, a.len() as int) =~= a);
                    assert(entity_at(escape_bytes(s), 0)) by {
                        assert(is_escaped_byte(s.first()) && 0 + escape_byte(s.first()).len()
                            <= escape_bytes(s).len() && escape_bytes(s).subrange(
                            0,
                            escape_byte(s.first()).len() as int,
                        ) == escape_byte(s.first()));
                    }
                } else {
                    // a pass-through byte is never an ampersand
                    assert(a == seq![s.first()]);
                    assert(false);
                }
            } else {
                assert(escape_bytes(s)[i] == b[i - a.len()]);
                assert(entity_at(b, i - a.len()));
                let c = choose|x: u8|
                    is_escaped_byte(x) && (i - a.len()) + escape_byte(x).len() <= b.len()
                        && b.subrange(
                        i - a.len(),
                        (i - a.len()) + escape_byte(x).len() as int,
                    ) == #[trigger] escape_byte(x);
                assert(escape_bytes(s).subrange(i, i + escape_byte(c).len() as int) =~= b.subrange(
                    i - a.len(),
                    (i - a.len()) + escape_byte(c).len() as int,
                ));
            }
        }
    }
}

// ---------------------------------------------------------------------------
// Rows and lines
// ---------------------------------------------------------------------------

/// The scopes still open when line `i` begins: none before the first line,
/// and afterwards whatever the previous line left open — unchanged across
/// a line that bypassed highlighting.
pub open spec fn carry_before(
    lines: Seq<Seq<u8>>,
    opss: Seq<Seq<(int, SpecOp)>>,
    max: Option<int>,
    i: int,
) -> Seq<Seq<Seq<u8>>>
    decreases i,
{
    if i <= 0 {
        Seq::empty()
    } else {
        let c = carry_before(lines, opss, max, i - 1);
        if long_line(lines[i - 1], max) {
            c
        } else {
            line_pieces(lines[i - 1], opss[i - 1], c).1
        }
    }
}

/// Each row of the remaining table, related to its line: same count, the
/// right 1-based number, the raw body for a long line, and the rendered
/// cell against the carried scopes for every other line.
proof fn lemma_rows_from(
    lines: Seq<Seq<u8>>,
    opss: Seq<Seq<(int, SpecOp)>>,
    carry: Seq<Seq<Seq<u8>>>,
    max: Option<int>,
    num: int,
)
    requires
        opss.len() == lines.len(),
    ensures
        table_rows_from(lines, opss, carry, max, num).len() == lines.len(),
        forall|i: int| 0 <= i < lines.len() ==> (#[trigger] table_rows_from(
            lines,
            opss,
            carry,
            max,
            num,
        )[i]).number == num + i,
        forall|i: int|
            0 <= i < lines.len() && long_line(#[trigger] lines[i], max) ==> table_rows_from(
                lines,
                opss,
                carry,
                max,
                num,
            )[i].body == RowBody::Raw(lines[i]),
        forall|i: int|
            0 <= i < lines.len() && !long_line(#[trigger] lines[i], max) ==> table_rows_from(
                lines,
                opss,
                carry,
                max,
                num,
            )[i].body == RowBody::Cells(
                line_pieces(lines[i], opss[i], carry_from(lines, opss, carry, max, i)).0,
            ),
    decreases lines.len(),
{
    if lines.len() > 0 {
        let rest_l = lines.drop_first();
        let rest_o = opss.drop_first();
        let carry1 = if long_line(lines[0], max) {
            carry
        } else {
            line_pieces(lines[0], opss[0], carry).1
        };
        lemma_rows_from(rest_l, rest_o, carry1, max, num + 1);
        assert(carry_from(lines, opss, carry, max, 0) == carry);
        assert forall|i: int| 1 <= i < lines.len() implies carry_from(lines, opss, carry, max, i)
            == carry_from(rest_l, rest_o, carry1, max, i - 1) by {
            lemma_carry_from_step(lines, opss, carry, max, i);
        }
        assert(forall|i: int|
            1 <= i < lines.len() ==> #[trigger] table_rows_from(lines, opss, carry, max, num)[i]
                == table_rows_from(rest_l, rest_o, carry1, max, num + 1)[i - 1]);
        assert(forall|i: int| 1 <= i < lines.len() ==> rest_l[i - 1] == #[trigger] lines[i]);
        assert(forall|i: int| 1 <= i < lines.len() ==> rest_o[i - 1] == #[trigger] opss[i]);
    }
}

/// The scopes carried into line `i`, measured from a table whose first
/// line already has `carry` open.
pub open spec fn carry_from(
    lines: Seq<Seq<u8>>,
    opss: Seq<Seq<(int, SpecOp)>>,
    carry: Seq<Seq<Seq<u8>>>,
    max: Option<int>,
    i: int,
) -> Seq<Seq<Seq<u8>>>
    decreases i,
{
    if i <= 0 {
        carry
    } else {
        let c = carry_from(lines, opss, carry, max, i - 1);
        if long_line(lines[i - 1], max) {
            c
        } else {
            line_pieces(lines[i - 1], opss[i - 1], c).1
        }
    }
}

/// Peeling the first line off the table shifts the carried scopes by one.
proof fn lemma_carry_from_step(
    lines: Seq<Seq<u8>>,
    opss: Seq<Seq<(int, SpecOp)>>,
    carry: Seq<Seq<Seq<u8>>>,
    max: Option<int>,
    i: int,
)
    requires
        1 <= i <= lines.len(),
        opss.len() == lines.len(),
    ensures
        carry_from(lines, opss, carry, max, i) == carry_from(
            lines.drop_first(),
            opss.drop_first(),
            if long_line(lines[0], max) {
                carry
            } else {
                line_pieces(lines[0], opss[0], carry).1
            },
            max,
            i - 1,
        ),
    decreases i,
{
    let carry1 = if long_line(lines[0], max) {
        carry
    } else {
        line_pieces(lines[0], opss[0], carry).1
    };
    if i == 1 {
        assert(carry_from(lines, opss, carry, max, 0) == carry);
        assert(carry_from(lines, opss, carry, max, 1) == carry1);
        assert(carry_from(lines.drop_first(), opss.drop_first(), carry1, max, 0) == carry1);
    } else {
        lemma_carry_from_step(lines, opss, carry, max, i - 1);
        let lhs_prev = carry_from(lines, opss, carry, max, i - 1);
        let rhs_prev = carry_from(lines.drop_first(), opss.drop_first(), carry1, max, i - 2);
        assert(lhs_prev == rhs_prev);
        assert(lines.drop_first()[i - 2] == lines[i - 1]);
        assert(opss.drop_first()[i - 2] == opss[i - 1]);
        assert(carry_from(lines, opss, carry, max, i) == if long_line(lines[i - 1], max) {
            lhs_prev
        } else {
            line_pieces(lines[i - 1], opss[i - 1], lhs_prev).1
        });
        assert(carry_from(lines.drop_first(), opss.drop_first(), carry1, max, i - 1)
            == if long_line(lines.drop_first()[i - 2], max) {
            rhs_prev
        } else {
            line_pieces(lines.drop_first()[i - 2], opss.drop_first()[i - 2], rhs_prev).1
        });
    }
}

/// Row-for-line correspondence: the table holds exactly one row per line
/// of the input; row `i` carries the 1-based line number `i + 1`; a row
/// for a line past the length limit holds that line's raw bytes and
/// nothing else; and every other row holds the line's rendered cell
/// against the scopes its predecessors left open.
pub proof fn theorem_row_per_line(
    lines: Seq<Seq<u8>>,
    opss: Seq<Seq<(int, SpecOp)>>,
    max: Option<int>,
)
    requires
        opss.len() == lines.len(),
    ensures
        table_rows(lines, opss, max).len() == lines.len(),
        forall|i: int|
            0 <= i < lines.len() ==> (#[trigger] table_rows(lines, opss, max)[i]).number == i + 1,
        forall|i: int|
            0 <= i < lines.len() && long_line(#[trigger] lines[i], max) ==> table_rows(
                lines,
                opss,
                max,
            )[i].body == RowBody::Raw(lines[i]),
        forall|i: int|
            0 <= i < lines.len() && !long_line(#[trigger] lines[i], max) ==> table_rows(
                lines,
                opss,
                max,
            )[i].body == RowBody::Cells(
                line_pieces(lines[i], opss[i], carry_before(lines, opss, max, i)).0,
            ),
{
    lemma_rows_from(lines, opss, Seq::empty(), max, 1);
    assert forall|i: int| 0 <= i < lines.len() implies carry_from(
        lines,
        opss,
        Seq::empty(),
        max,
        i,
    ) == carry_before(lines, opss, max, i) by {
        lemma_carry_from_eq_before(lines, opss, max, i);
    }
}

/// With no scope open before the first line, the two carry measures agree.
proof fn lemma_carry_from_eq_before(
    lines: Seq<Seq<u8>>,
    opss: Seq<Seq<(int, SpecOp)>>,
    max: Option<int>,
    i: int,
)
    ensures
        carry_from(lines, opss, Seq::empty(), max, i) == carry_before(lines, opss, max, i),
    decreases i,
{
    if i > 0 {
        lemma_carry_from_eq_before(lines, opss, max, i - 1);
    }
}


// ---------------------------------------------------------------------------
// Nesting
// ---------------------------------------------------------------------------

/// How one piece changes the nesting depth: an opening tag descends, a
/// closing tag ascends, text stays level.
pub open spec fn piece_delta(p: Piece) -> int {
    match p {
        Piece::Open(_) => 1,
        Piece::Close => -1,
        Piece::Text(_) => 0,
    }
}

/// The nesting depth left open after a sequence of pieces.
pub open spec fn tag_depth(ps: Seq<Piece>) -> int
    decreases ps.len(),
{
    if ps.len() == 0 {
        0
    } else {
        tag_depth(ps.drop_last()) + piece_delta(ps.last())
    }
}

/// Properly nested markup: no prefix closes a tag that is not open, and
/// every opened tag is closed by the end.
pub open spec fn balanced_pieces(ps: Seq<Piece>) -> bool {
    &&& tag_depth(ps) == 0
    &&& forall|k: int| 0 <= k <= ps.len() ==> tag_depth(#[trigger] ps.take(k)) >= 0
}

/// The invariant the renderer maintains while streaming a line whose
/// carry-over scopes are `carry`: the depth open so far equals the stack's
/// height, no prefix is over-closed, the row still begins with the
/// reopening tags of the carried scopes, and every elision mark points at
/// an opening tag past those reopenings, marks ordered as their entries.
pub open spec fn renders_from(st: LineState, carry: Seq<Seq<Seq<u8>>>) -> bool {
    &&& tag_depth(st.pieces) == st.stack.len()
    &&& forall|k: int| 0 <= k <= st.pieces.len() ==> tag_depth(#[trigger] st.pieces.take(k)) >= 0
    &&& st.pieces.len() >= carry.len()
    &&& forall|j: int| 0 <= j < carry.len() ==> st.pieces[j] == Piece::Open(#[trigger] carry[j])
    &&& forall|j: int|
        0 <= j < st.stack.len() && (#[trigger] st.stack[j]).mark is Some ==> {
            let m = st.stack[j].mark->Some_0;
            &&& carry.len() <= m < st.pieces.len()
            &&& st.pieces[m] is Open
        }
    &&& forall|j1: int, j2: int|
        0 <= j1 < j2 < st.stack.len() && (#[trigger] st.stack[j1]).mark is Some
            && (#[trigger] st.stack[j2]).mark is Some ==> st.stack[j1].mark->Some_0
            < st.stack[j2].mark->Some_0
}

/// Appending one piece to the row.
proof fn lemma_tag_depth_push(ps: Seq<Piece>, p: Piece)
    ensures
        tag_depth(ps.push(p)) == tag_depth(ps) + piece_delta(p),
{
    assert(ps.push(p).drop_last() == ps);
    assert(ps.push(p).last() == p);
}

/// Appending a level piece or an opening tag preserves the invariant's
/// prefix conditions.
proof fn lemma_append_keeps(st: LineState, carry: Seq<Seq<Seq<u8>>>, p: Piece)
    requires
        renders_from(st, carry),
        piece_delta(p) >= 0 || st.stack.len() > 0,
    ensures
        tag_depth(st.pieces.push(p)) == st.stack.len() + piece_delta(p),
        forall|k: int|
            0 <= k <= st.pieces.push(p).len() ==> tag_depth(
                #[trigger] st.pieces.push(p).take(k),
            ) >= 0,
        forall|j: int|
            0 <= j < carry.len() ==> st.pieces.push(p)[j] == Piece::Open(#[trigger] carry[j]),
{
    lemma_tag_depth_push(st.pieces, p);
    assert forall|k: int| 0 <= k <= st.pieces.push(p).len() implies tag_depth(
        #[trigger] st.pieces.push(p).take(k),
    ) >= 0 by {
        if k <= st.pieces.len() {
            assert(st.pieces.push(p).take(k) =~= st.pieces.take(k));
        } else {
            assert(st.pieces.push(p).take(k) =~= st.pieces.push(p));
            assert(st.pieces.take(st.pieces.len() as int) =~= st.pieces);
        }
    }
}

/// One operation preserves the invariant.
proof fn lemma_step_renders(st: LineState, carry: Seq<Seq<Seq<u8>>>, line: Seq<u8>, off: int, op: SpecOp)
    requires
        renders_from(st, carry),
    ensures
        renders_from(apply_op(st, line, off, op), carry),
{
    let st1 = emit_text(st, line, off);
    assert(renders_from(st1, carry)) by {
        if st1 != st {
            let p = Piece::Text(line.subrange(st.cur, crate::render::clamp_offset(off, line)));
            lemma_append_keeps(st, carry, p);
            assert(forall|j: int|
                0 <= j < st.stack.len() && (#[trigger] st.stack[j]).mark is Some
                    ==> st1.pieces[st.stack[j].mark->Some_0] == st.pieces[st.stack[j].mark->Some_0]);
        }
    }
    let st2 = apply_op(st, line, off, op);
    match op {
        SpecOp::Push(scope) => {
            lemma_append_keeps(st1, carry, Piece::Open(scope));
            assert(forall|j: int|
                0 <= j < st1.stack.len() && (#[trigger] st1.stack[j]).mark is Some
                    ==> st2.pieces[st1.stack[j].mark->Some_0] == st1.pieces[st1.stack[j].mark->Some_0]);
            assert(forall|j: int|
                0 <= j < st1.stack.len() ==> st2.stack[j] == #[trigger] st1.stack[j]);
            assert(st2.stack.last().mark->Some_0 == st1.pieces.len());
            assert(st2.pieces[st1.pieces.len() as int] is Open);
        },
        SpecOp::Pop => {
            if st1.stack.len() == 0 {
            } else {
                let e = st1.stack.last();
                assert(forall|j: int|
                    0 <= j < st1.stack.len() - 1 ==> st2.stack[j] == #[trigger] st1.stack[j]);
                match e.mark {
                    Some(m) => {
                        if st1.pieces.len() == m + 1 {
                            // elision: the opening tag at m vanishes
                            assert(st1.pieces.take(m + 1) =~= st1.pieces);
                            assert(st1.pieces.take(m + 1).drop_last() =~= st1.pieces.take(m));
                            assert(st1.pieces.take(m + 1).last() == st1.pieces[m]);
                            assert(tag_depth(st2.pieces) == st1.stack.len() - 1);
                            assert forall|k: int| 0 <= k <= st2.pieces.len() implies tag_depth(
                                #[trigger] st2.pieces.take(k),
                            ) >= 0 by {
                                assert(st2.pieces.take(k) =~= st1.pieces.take(k));
                            }
                            assert(forall|j: int|
                                0 <= j < carry.len() ==> st2.pieces[j] == st1.pieces[j]);
                            assert forall|j: int|
                                0 <= j < st2.stack.len() && (#[trigger] st2.stack[j]).mark is Some
                                implies {
                                let mj = st2.stack[j].mark->Some_0;
                                &&& carry.len() <= mj < st2.pieces.len()
                                &&& st2.pieces[mj] is Open
                            } by {
                                let mj = st2.stack[j].mark->Some_0;
                                assert(st1.stack[j].mark->Some_0 == mj);
                                assert(mj < m);
                                assert(st2.pieces[mj] == st1.pieces[mj]);
                            }
                        } else {
                            lemma_append_keeps(st1, carry, Piece::Close);
                            assert(forall|j: int|
                                0 <= j < st2.stack.len() && (#[trigger] st2.stack[j]).mark is Some
                                    ==> st2.pieces[st2.stack[j].mark->Some_0]
                                    == st1.pieces[st2.stack[j].mark->Some_0]);
                        }
                    },
                    None => {
                        lemma_append_keeps(st1, carry, Piece::Close);
                        assert(forall|j: int|
                            0 <= j < st2.stack.len() && (#[trigger] st2.stack[j]).mark is Some
                                ==> st2.pieces[st2.stack[j].mark->Some_0]
                                == st1.pieces[st2.stack[j].mark->Some_0]);
                    },
                }
            }
        },
    }
}

/// The whole operation stream preserves the invariant.
proof fn lemma_fold_renders(
    st: LineState,
    carry: Seq<Seq<Seq<u8>>>,
    line: Seq<u8>,
    ops: Seq<(int, SpecOp)>,
)
    requires
        renders_from(st, carry),
    ensures
        renders_from(apply_ops(st, line, ops), carry),
    decreases ops.len(),
{
    if ops.len() > 0 {
        lemma_step_renders(st, carry, line, ops[0].0, ops[0].1);
        lemma_fold_renders(apply_op(st, line, ops[0].0, ops[0].1), carry, line, ops.drop_first());
    }
}

/// The reopening tags of the carried scopes open exactly their number.
proof fn lemma_carry_depth(carry: Seq<Seq<Seq<u8>>>, k: int)
    requires
        0 <= k <= carry.len(),
    ensures
        tag_depth(carry_open_pieces(carry).take(k)) == k,
    decreases k,
{
    if k > 0 {
        lemma_carry_depth(carry, k - 1);
        let ps = carry_open_pieces(carry);
        assert(ps.take(k).drop_last() =~= ps.take(k - 1));
        assert(ps.take(k).last() == ps[k - 1]);
    }
}

/// A line begins in the invariant.
proof fn lemma_init_renders(carry: Seq<Seq<Seq<u8>>>)
    ensures
        renders_from(init_state(carry), carry),
{
    let st = init_state(carry);
    lemma_carry_depth(carry, carry.len() as int);
    assert(st.pieces.take(st.pieces.len() as int) =~= st.pieces);
    assert forall|k: int| 0 <= k <= st.pieces.len() implies tag_depth(#[trigger] st.pieces.take(k))
        >= 0 by {
        lemma_carry_depth(carry, k);
    }
}

/// Appending `t` closing tags lowers the depth by `t`, and a row that had
/// `t` tags open and then closes all of them is balanced.
proof fn lemma_closes_balance(ps: Seq<Piece>, t: int)
    requires
        0 <= t,
    ensures
        tag_depth(ps + closes(t as nat)) == tag_depth(ps) - t,
    decreases t,
{
    if t == 0 {
        assert(ps + closes(0) =~= ps);
    } else {
        lemma_closes_balance(ps, t - 1);
        assert(ps + closes(t as nat) =~= (ps + closes((t - 1) as nat)).push(Piece::Close));
        lemma_tag_depth_push(ps + closes((t - 1) as nat), Piece::Close);
    }
}

/// Every row the renderer emits for a highlighted line is properly nested
/// markup: within the row, no closing tag appears without its matching
/// opening tag, and every opening tag is closed before the row ends — the
/// empty-span elision and the carry-over reopenings included.
pub proof fn theorem_row_nested(line: Seq<u8>, ops: Seq<(int, SpecOp)>, carry: Seq<Seq<Seq<u8>>>)
    ensures
        balanced_pieces(line_pieces(line, ops, carry).0),
{
    lemma_init_renders(carry);
    lemma_fold_renders(init_state(carry), carry, line, ops);
    let st = apply_ops(init_state(carry), line, ops);
    let st2 = emit_text(st, line, line.len() as int);
    assert(renders_from(st2, carry)) by {
        if st2 != st {
            let p = Piece::Text(
                line.subrange(st.cur, crate::render::clamp_offset(line.len() as int, line)),
            );
            lemma_append_keeps(st, carry, p);
            assert(forall|j: int|
                0 <= j < st.stack.len() && (#[trigger] st.stack[j]).mark is Some
                    ==> st2.pieces[st.stack[j].mark->Some_0] == st.pieces[st.stack[j].mark->Some_0]);
        }
    }
    let t = st2.stack.len() as int;
    let whole = st2.pieces + closes(t as nat);
    lemma_closes_balance(st2.pieces, t);
    assert forall|k: int| 0 <= k <= whole.len() implies tag_depth(#[trigger] whole.take(k)) >= 0 by {
        if k <= st2.pieces.len() {
            assert(whole.take(k) =~= st2.pieces.take(k));
        } else {
            assert(whole.take(k) =~= st2.pieces + closes((k - st2.pieces.len()) as nat));
            lemma_closes_balance(st2.pieces, k - st2.pieces.len());
            assert(st2.pieces.take(st2.pieces.len() as int) =~= st2.pieces);
        }
    }
}

/// A scope open at the end of one line is reopened at the start of the
/// next row's cell: the first tags of the cell are exactly the carried
/// scopes' opening tags, outermost first, and no elision removes them.
pub proof fn theorem_carry_reopened(
    line: Seq<u8>,
    ops: Seq<(int, SpecOp)>,
    carry: Seq<Seq<Seq<u8>>>,
)
    ensures
        line_pieces(line, ops, carry).0.len() >= carry.len(),
        forall|j: int|
            0 <= j < carry.len() ==> line_pieces(line, ops, carry).0[j] == Piece::Open(
                #[trigger] carry[j],
            ),
{
    lemma_init_renders(carry);
    lemma_fold_renders(init_state(carry), carry, line, ops);
    let st = apply_ops(init_state(carry), line, ops);
    let st2 = emit_text(st, line, line.len() as int);
    assert(renders_from(st2, carry)) by {
        if st2 != st {
            let p = Piece::Text(
                line.subrange(st.cur, crate::render::clamp_offset(line.len() as int, line)),
            );
            lemma_append_keeps(st, carry, p);
            assert(forall|j: int|
                0 <= j < st.stack.len() && (#[trigger] st.stack[j]).mark is Some
                    ==> st2.pieces[st.stack[j].mark->Some_0] == st.pieces[st.stack[j].mark->Some_0]);
        }
    }
    assert(forall|j: int|
        0 <= j < carry.len() ==> (st2.pieces + closes(st2.stack.len()))[j] == #[trigger] st2.pieces[j]);
}

/// Every highlighted row of a whole table is properly nested.
pub proof fn theorem_table_nested(
    lines: Seq<Seq<u8>>,
    opss: Seq<Seq<(int, SpecOp)>>,
    max: Option<int>,
)
    requires
        opss.len() == lines.len(),
    ensures
        forall|i: int|
            0 <= i < table_rows(lines, opss, max).len() && (#[trigger] table_rows(
                lines,
                opss,
                max,
            )[i]).body is Cells ==> balanced_pieces(table_rows(lines, opss, max)[i].body->Cells_0),
{
    theorem_row_per_line(lines, opss, max);
    assert forall|i: int|
        0 <= i < table_rows(lines, opss, max).len() && (#[trigger] table_rows(lines, opss, max)[i]).body
            is Cells implies balanced_pieces(table_rows(lines, opss, max)[i].body->Cells_0) by {
        assert(!long_line(lines[i], max));
        theorem_row_nested(lines[i], opss[i], carry_before(lines, opss, max, i));
    }
}


// ---------------------------------------------------------------------------
// Empty-span elision
// ---------------------------------------------------------------------------

/// A group of operations that all take effect at one offset and whose
/// pops exactly match its own pushes: it opens spans and closes every one
/// of them with no text in between, at any nesting depth.
pub open spec fn zero_width_group(ops: Seq<(int, SpecOp)>, off: int, depth: int) -> bool
    decreases ops.len(),
{
    if ops.len() == 0 {
        depth == 0
    } else {
        ops[0].0 == off && match ops[0].1 {
            SpecOp::Push(_) => zero_width_group(ops.drop_first(), off, depth + 1),
            SpecOp::Pop => depth >= 1 && zero_width_group(ops.drop_first(), off, depth - 1),
        }
    }
}

/// The state after pushing each of `scopes` in order, with no text between.
pub open spec fn pushed_all(st: LineState, scopes: Seq<Seq<Seq<u8>>>) -> LineState
    decreases scopes.len(),
{
    if scopes.len() == 0 {
        st
    } else {
        pushed_all(push_one(st, scopes[0]), scopes.drop_first())
    }
}

/// One push with no text before it.
pub open spec fn push_one(st: LineState, scope: Seq<Seq<u8>>) -> LineState {
    LineState {
        pieces: st.pieces.push(Piece::Open(scope)),
        stack: st.stack.push(SpecEntry { scope, mark: Some(st.pieces.len() as int) }),
        cur: st.cur,
    }
}

/// Pushing one more scope at the end.
proof fn lemma_pushed_all_snoc(st: LineState, scopes: Seq<Seq<Seq<u8>>>, sc: Seq<Seq<u8>>)
    ensures
        pushed_all(st, scopes.push(sc)) == push_one(pushed_all(st, scopes), sc),
    decreases scopes.len(),
{
    if scopes.len() == 0 {
        assert(scopes.push(sc)[0] == sc);
        assert(scopes.push(sc).drop_first() =~= Seq::<Seq<Seq<u8>>>::empty());
        assert(pushed_all(st, scopes.push(sc)) == pushed_all(
            push_one(st, sc),
            scopes.push(sc).drop_first(),
        ));
        assert(pushed_all(push_one(st, sc), scopes.push(sc).drop_first()) == push_one(st, sc));
        assert(pushed_all(st, scopes) == st);
    } else {
        assert(scopes.push(sc)[0] == scopes[0]);
        assert(scopes.push(sc).drop_first() =~= scopes.drop_first().push(sc));
        lemma_pushed_all_snoc(push_one(st, scopes[0]), scopes.drop_first(), sc);
    }
}

/// Pushes alone never move the cursor.
proof fn lemma_pushed_all_cur(st: LineState, scopes: Seq<Seq<Seq<u8>>>)
    ensures
        pushed_all(st, scopes).cur == st.cur,
        pushed_all(st, scopes).stack.len() == st.stack.len() + scopes.len(),
    decreases scopes.len(),
{
    if scopes.len() > 0 {
        lemma_pushed_all_cur(push_one(st, scopes[0]), scopes.drop_first());
    }
}

/// A zero-width group applied on top of its own pushes unwinds to the
/// state beneath them.
proof fn lemma_group_vanishes(
    st: LineState,
    line: Seq<u8>,
    ops: Seq<(int, SpecOp)>,
    off: int,
    scopes: Seq<Seq<Seq<u8>>>,
)
    requires
        zero_width_group(ops, off, scopes.len() as int),
        st.cur >= clamp_offset(off, line),
    ensures
        apply_ops(pushed_all(st, scopes), line, ops) == st,
    decreases ops.len(),
{
    if ops.len() == 0 {
        assert(scopes.len() == 0);
    } else {
        let stt = pushed_all(st, scopes);
        lemma_pushed_all_cur(st, scopes);
        assert(emit_text(stt, line, off) == stt);
        match ops[0].1 {
            SpecOp::Push(sc) => {
                assert(apply_op(stt, line, off, ops[0].1) == push_one(stt, sc));
                lemma_pushed_all_snoc(st, scopes, sc);
                lemma_group_vanishes(st, line, ops.drop_first(), off, scopes.push(sc));
            },
            SpecOp::Pop => {
                assert(scopes.len() >= 1);
                let inner = pushed_all(st, scopes.drop_last());
                assert(scopes.drop_last().push(scopes.last()) =~= scopes);
                lemma_pushed_all_snoc(st, scopes.drop_last(), scopes.last());
                assert(stt == push_one(inner, scopes.last()));
                assert(stt.stack.len() > 0);
                let e = stt.stack.last();
                assert(e.mark == Some(inner.pieces.len() as int));
                assert(stt.pieces.len() == inner.pieces.len() + 1);
                assert(stt.pieces.take(inner.pieces.len() as int) =~= inner.pieces);
                assert(stt.stack.drop_last() =~= inner.stack);
                assert(apply_op(stt, line, off, ops[0].1) == inner);
                lemma_group_vanishes(st, line, ops.drop_first(), off, scopes.drop_last());
            },
        }
    }
}

/// Splitting an operation stream splits the fold.
pub proof fn lemma_apply_ops_concat(
    st: LineState,
    line: Seq<u8>,
    a: Seq<(int, SpecOp)>,
    b: Seq<(int, SpecOp)>,
)
    ensures
        apply_ops(st, line, a + b) == apply_ops(apply_ops(st, line, a), line, b),
    decreases a.len(),
{
    if a.len() == 0 {
        assert(a + b =~= b);
    } else {
        assert((a + b)[0] == a[0]);
        assert((a + b).drop_first() =~= a.drop_first() + b);
        lemma_apply_ops_concat(apply_op(st, line, a[0].0, a[0].1), line, a.drop_first(), b);
    }
}

/// Empty-span elision, at any depth: a group of operations that pushes
/// scopes and pops every one of them at a single position the cursor has
/// already reached — so no text stands between any of its pushes and pops
/// — leaves the row exactly as it was. None of the group's spans, however
/// nested, appears in the output.
pub proof fn theorem_empty_group_elided(
    st: LineState,
    line: Seq<u8>,
    ops: Seq<(int, SpecOp)>,
    off: int,
)
    requires
        zero_width_group(ops, off, 0),
        st.cur >= clamp_offset(off, line),
    ensures
        apply_ops(st, line, ops) == st,
{
    lemma_group_vanishes(st, line, ops, off, Seq::empty());
}

} // verus!
