use vstd::prelude::*;
use crate::escape::{escape_bytes, escape_push, lemma_escape_bytes_len};
use crate::markup::{
    span_open_bytes, span_close_bytes, ClassStyle, push_span_open, push_span_close,
};
use vstd::slice::slice_subrange;

verus! {

// ---------------------------------------------------------------------------
// Operations
// ---------------------------------------------------------------------------

/// A scope-stack operation handed to the renderer. A scope is carried as its
/// class atoms, each an ASCII byte string such as `keyword`.
pub enum ScopeOp {
    Push(Vec<Vec<u8>>),
    Pop,
}

/// A scope-stack operation positioned at a byte offset within a line.
pub struct LineOp {
    pub offset: usize,
    pub op: ScopeOp,
}

/// Specification-level form of a scope-stack operation.
pub enum SpecOp {
    Push(Seq<Seq<u8>>),
    Pop,
}

impl View for ScopeOp {
    type V = SpecOp;

    open spec fn view(&self) -> SpecOp {
        match self {
            ScopeOp::Push(atoms) => SpecOp::Push(atoms.deep_view()),
            ScopeOp::Pop => SpecOp::Pop,
        }
    }
}

impl DeepView for ScopeOp {
    type V = SpecOp;

    open spec fn deep_view(&self) -> SpecOp {
        self.view()
    }
}

impl View for LineOp {
    type V = (int, SpecOp);

    open spec fn view(&self) -> (int, SpecOp) {
        (self.offset as int, self.op@)
    }
}

impl DeepView for LineOp {
    type V = (int, SpecOp);

    open spec fn deep_view(&self) -> (int, SpecOp) {
        self.view()
    }
}

// ---------------------------------------------------------------------------
// Pieces: the structured form of a row's code cell
// ---------------------------------------------------------------------------

/// One piece of a rendered code cell. A row's cell is the concatenation of
/// its pieces: opening span tags, closing span tags, and runs of literal
/// text (stored raw here, HTML-escaped when turned into bytes).
pub enum Piece {
    Open(Seq<Seq<u8>>),
    Close,
    Text(Seq<u8>),
}

/// The bytes of a single piece, under the class-atom prefix `prefix`.
pub open spec fn piece_bytes(p: Piece, prefix: Seq<u8>) -> Seq<u8> {
    match p {
        Piece::Open(atoms) => span_open_bytes(atoms, prefix),
        Piece::Close => span_close_bytes(),
        Piece::Text(raw) => escape_bytes(raw),
    }
}

/// The bytes of a sequence of pieces.
pub open spec fn pieces_bytes(ps: Seq<Piece>, prefix: Seq<u8>) -> Seq<u8>
    decreases ps.len(),
{
    if ps.len() == 0 {
        Seq::empty()
    } else {
        pieces_bytes(ps.drop_last(), prefix) + piece_bytes(ps.last(), prefix)
    }
}

/// Every piece renders to at least one byte, except a `Text` piece holding
/// an empty run, which the renderer never appends.
spec fn piece_nonempty(p: Piece) -> bool {
    p is Text ==> p->Text_0.len() > 0
}

// ---------------------------------------------------------------------------
// The per-line state machine
// ---------------------------------------------------------------------------

/// An entry of the scope stack during one line. `mark` is `Some(m)` when
/// the entry's opening tag is the piece at index `m` of the current row and
/// the span may still be elided; entries reopened from the previous line
/// carry `None` and are never elided.
pub struct SpecEntry {
    pub scope: Seq<Seq<u8>>,
    pub mark: Option<int>,
}

/// The state while streaming one line: the pieces of the row so far, the
/// scope stack, and the text cursor (a byte offset into the line).
pub struct LineState {
    pub pieces: Seq<Piece>,
    pub stack: Seq<SpecEntry>,
    pub cur: int,
}

/// Offsets are clamped into the line; operations never move the cursor
/// backwards.
pub open spec fn clamp_offset(off: int, line: Seq<u8>) -> int {
    if off > line.len() {
        line.len() as int
    } else {
        off
    }
}

/// Advances the cursor to `off` (clamped), appending the skipped-over text
/// as a piece when it is non-empty.
pub open spec fn emit_text(st: LineState, line: Seq<u8>, off: int) -> LineState {
    let end = clamp_offset(off, line);
    if end > st.cur {
        LineState {
            pieces: st.pieces.push(Piece::Text(line.subrange(st.cur, end))),
            stack: st.stack,
            cur: end,
        }
    } else {
        st
    }
}

/// Applies one positioned operation: first the text up to its offset, then
/// the operation itself. A push records the index of its opening tag; a pop
/// removes the innermost entry, erasing its opening tag when nothing was
/// appended after it (the empty-span elision), and a pop on an empty stack
/// does nothing.
pub open spec fn apply_op(st: LineState, line: Seq<u8>, off: int, op: SpecOp) -> LineState {
    let st1 = emit_text(st, line, off);
    match op {
        SpecOp::Push(scope) => LineState {
            pieces: st1.pieces.push(Piece::Open(scope)),
            stack: st1.stack.push(
                SpecEntry { scope, mark: Some(st1.pieces.len() as int) },
            ),
            cur: st1.cur,
        },
        SpecOp::Pop => {
            if st1.stack.len() == 0 {
                st1
            } else {
                let e = st1.stack.last();
                let rest = st1.stack.drop_last();
                match e.mark {
                    Some(m) => if st1.pieces.len() == m + 1 {
                        LineState { pieces: st1.pieces.take(m), stack: rest, cur: st1.cur }
                    } else {
                        LineState {
                            pieces: st1.pieces.push(Piece::Close),
                            stack: rest,
                            cur: st1.cur,
                        }
                    },
                    None => LineState {
                        pieces: st1.pieces.push(Piece::Close),
                        stack: rest,
                        cur: st1.cur,
                    },
                }
            }
        },
    }
}

/// Applies a sequence of positioned operations in order.
pub open spec fn apply_ops(st: LineState, line: Seq<u8>, ops: Seq<(int, SpecOp)>) -> LineState
    decreases ops.len(),
{
    if ops.len() == 0 {
        st
    } else {
        apply_ops(apply_op(st, line, ops[0].0, ops[0].1), line, ops.drop_first())
    }
}

/// The opening tags that reopen the scopes carried over from the previous
/// line, outermost first.
pub open spec fn carry_open_pieces(carry: Seq<Seq<Seq<u8>>>) -> Seq<Piece> {
    carry.map(|i: int, s: Seq<Seq<u8>>| Piece::Open(s))
}

/// The stack entries for the carried-over scopes; none of them is eligible
/// for elision.
pub open spec fn carry_entries(carry: Seq<Seq<Seq<u8>>>) -> Seq<SpecEntry> {
    carry.map(|i: int, s: Seq<Seq<u8>>| SpecEntry { scope: s, mark: None })
}

/// The state at the start of a line's code cell.
pub open spec fn init_state(carry: Seq<Seq<Seq<u8>>>) -> LineState {
    LineState { pieces: carry_open_pieces(carry), stack: carry_entries(carry), cur: 0 }
}

/// `k` closing tags, one for each scope still open at the line's end.
pub open spec fn closes(k: nat) -> Seq<Piece> {
    Seq::new(k, |i: int| Piece::Close)
}

/// The scopes a stack holds, outermost first.
pub open spec fn stack_scopes(stack: Seq<SpecEntry>) -> Seq<Seq<Seq<u8>>> {
    stack.map(|i: int, e: SpecEntry| e.scope)
}

/// Renders one line: reopen the carried scopes, stream the operations, then
/// the trailing text, then close every scope still open. Returns the row's
/// pieces and the scopes carried over to the next line.
pub open spec fn line_pieces(
    line: Seq<u8>,
    ops: Seq<(int, SpecOp)>,
    carry: Seq<Seq<Seq<u8>>>,
) -> (Seq<Piece>, Seq<Seq<Seq<u8>>>) {
    let st = apply_ops(init_state(carry), line, ops);
    let st2 = emit_text(st, line, line.len() as int);
    (st2.pieces + closes(st2.stack.len()), stack_scopes(st2.stack))
}

// ---------------------------------------------------------------------------
// The executable per-line renderer
// ---------------------------------------------------------------------------

/// An entry of the executable scope stack. `mark_before` and `mark_after`
/// are the buffer lengths around this entry's opening tag; `mark_idx` is
/// the index of that tag among the row's pieces. They are meaningful only
/// while `elidable` holds.
struct Entry {
    scope: Vec<Vec<u8>>,
    elidable: bool,
    mark_before: usize,
    mark_after: usize,
    mark_idx: Ghost<int>,
}

/// The exec stack mirrors the spec stack: same scopes, and for each entry
/// still eligible for elision, marks that locate its opening tag both as a
/// piece index and as byte positions in the buffer.
spec fn stack_models(
    stack: Seq<Entry>,
    st: LineState,
    base: Seq<u8>,
    prefix: Seq<u8>,
) -> bool {
    &&& stack.len() == st.stack.len()
    &&& forall|j: int| 0 <= j < stack.len() ==> {
        &&& (#[trigger] stack[j]).scope.deep_view() == st.stack[j].scope
        &&& (stack[j].elidable <==> st.stack[j].mark is Some)
        &&& (stack[j].elidable ==> {
            let m = st.stack[j].mark->Some_0;
            &&& stack[j].mark_idx@ == m
            &&& 0 <= m < st.pieces.len()
            &&& st.pieces[m] == Piece::Open(st.stack[j].scope)
            &&& stack[j].mark_before == base.len() + pieces_bytes(st.pieces.take(m), prefix).len()
            &&& stack[j].mark_after == stack[j].mark_before + piece_bytes(
                st.pieces[m],
                prefix,
            ).len()
        })
    }
    &&& forall|j1: int, j2: int|
        0 <= j1 < j2 < stack.len() && stack[j1].elidable && stack[j2].elidable
            ==> stack[j1].mark_idx@ < stack[j2].mark_idx@
}

/// All pieces of the row so far render to at least one byte.
spec fn pieces_all_nonempty(ps: Seq<Piece>) -> bool {
    forall|i: int| 0 <= i < ps.len() ==> piece_nonempty(#[trigger] ps[i])
}

/// Appending a piece appends its bytes.
proof fn lemma_pieces_bytes_push(ps: Seq<Piece>, p: Piece, prefix: Seq<u8>)
    ensures
        pieces_bytes(ps.push(p), prefix) == pieces_bytes(ps, prefix) + piece_bytes(p, prefix),
{
    assert(ps.push(p).drop_last() == ps);
    assert(ps.push(p).last() == p);
}

/// A prefix of the pieces renders to a prefix of the bytes.
proof fn lemma_pieces_bytes_take(ps: Seq<Piece>, k: int, prefix: Seq<u8>)
    requires
        0 <= k <= ps.len(),
    ensures
        pieces_bytes(ps, prefix) == pieces_bytes(ps.take(k), prefix) + pieces_bytes_from(
            ps,
            k,
            prefix,
        ),
    decreases ps.len() - k,
{
    if k == ps.len() {
        assert(ps.take(k) == ps);
        assert(pieces_bytes(ps, prefix) =~= pieces_bytes(ps.take(k), prefix)
            + pieces_bytes_from(ps, k, prefix));
    } else {
        lemma_pieces_bytes_take(ps, k + 1, prefix);
        assert(ps.take(k + 1).drop_last() == ps.take(k));
        assert(ps.take(k + 1).last() == ps[k]);
        assert(pieces_bytes(ps.take(k + 1), prefix) == pieces_bytes(ps.take(k), prefix)
            + piece_bytes(ps[k], prefix));
        assert(pieces_bytes(ps, prefix) =~= pieces_bytes(ps.take(k), prefix)
            + pieces_bytes_from(ps, k, prefix));
    }
}

/// The bytes of the pieces from index `k` on.
spec fn pieces_bytes_from(ps: Seq<Piece>, k: int, prefix: Seq<u8>) -> Seq<u8>
    decreases ps.len() - k,
{
    if k < 0 || k >= ps.len() {
        Seq::empty()
    } else {
        piece_bytes(ps[k], prefix) + pieces_bytes_from(ps, k + 1, prefix)
    }
}


/// The bytes of a piece suffix cover at least one byte per piece.
proof fn lemma_pieces_bytes_from_len(ps: Seq<Piece>, k: int, prefix: Seq<u8>)
    requires
        pieces_all_nonempty(ps),
        0 <= k <= ps.len(),
    ensures
        pieces_bytes_from(ps, k, prefix).len() >= ps.len() - k,
    decreases ps.len() - k,
{
    if k < ps.len() {
        lemma_pieces_bytes_from_len(ps, k + 1, prefix);
        match ps[k] {
            Piece::Text(raw) => {
                lemma_escape_bytes_len(raw);
            },
            _ => {},
        }
    }
}

/// Appending a piece at the end disturbs no existing marks.
proof fn lemma_models_grow(
    stack: Seq<Entry>,
    st: LineState,
    st2: LineState,
    p: Piece,
    base: Seq<u8>,
    prefix: Seq<u8>,
)
    requires
        stack_models(stack, st, base, prefix),
        st2.stack == st.stack,
        st2.pieces == st.pieces.push(p),
    ensures
        stack_models(stack, st2, base, prefix),
{
    assert forall|j: int| 0 <= j < stack.len() && stack[j].elidable implies {
        let m = st.stack[j].mark->Some_0;
        &&& st2.pieces[m] == Piece::Open(st2.stack[j].scope)
        &&& st2.pieces.take(m) == st.pieces.take(m)
    } by {
        let m = st.stack[j].mark->Some_0;
        assert(st2.pieces[m] == st.pieces[m]);
        assert(st2.pieces.take(m) =~= st.pieces.take(m));
    }
}

/// Eliding the innermost span: the piece list shrinks back to the mark and
/// the remaining entries keep their marks.
proof fn lemma_models_truncate(
    stack: Seq<Entry>,
    st: LineState,
    base: Seq<u8>,
    prefix: Seq<u8>,
)
    requires
        stack_models(stack, st, base, prefix),
        stack.len() > 0,
        stack.last().elidable,
        st.pieces.len() == st.stack.last().mark->Some_0 + 1,
    ensures
        stack_models(
            stack.drop_last(),
            LineState {
                pieces: st.pieces.take(st.stack.last().mark->Some_0),
                stack: st.stack.drop_last(),
                cur: st.cur,
            },
            base,
            prefix,
        ),
{
    let m = st.stack.last().mark->Some_0;
    let st2 = LineState {
        pieces: st.pieces.take(m),
        stack: st.stack.drop_last(),
        cur: st.cur,
    };
    assert forall|j: int| 0 <= j < stack.drop_last().len() && stack.drop_last()[j].elidable
        implies {
        let mj = st2.stack[j].mark->Some_0;
        &&& 0 <= mj < st2.pieces.len()
        &&& st2.pieces[mj] == Piece::Open(st2.stack[j].scope)
        &&& st2.pieces.take(mj) == st.pieces.take(mj)
    } by {
        let mj = st2.stack[j].mark->Some_0;
        assert(stack.drop_last()[j] == stack[j]);
        assert(st2.stack[j] == st.stack[j]);
        assert(stack[j].mark_idx@ == mj);
        assert(stack.last().mark_idx@ == m);
        assert(mj < m);
        assert(st2.pieces[mj] == st.pieces[mj]);
        assert(st2.pieces.take(mj) =~= st.pieces.take(mj));
    }
}

/// Processing one more operation extends the fold by one step.
proof fn lemma_apply_ops_snoc(
    st: LineState,
    line: Seq<u8>,
    s: Seq<(int, SpecOp)>,
    x: (int, SpecOp),
)
    ensures
        apply_ops(st, line, s.push(x)) == apply_op(apply_ops(st, line, s), line, x.0, x.1),
    decreases s.len(),
{
    if s.len() == 0 {
        assert(s.push(x)[0] == x);
        assert(s.push(x).drop_first() =~= Seq::<(int, SpecOp)>::empty());
        assert(apply_ops(st, line, s.push(x)) == apply_ops(
            apply_op(st, line, x.0, x.1),
            line,
            s.push(x).drop_first(),
        ));
        assert(apply_ops(st, line, s) == st);
    } else {
        assert(s.push(x)[0] == s[0]);
        assert(s.push(x).drop_first() =~= s.drop_first().push(x));
        lemma_apply_ops_snoc(apply_op(st, line, s[0].0, s[0].1), line, s.drop_first(), x);
    }
}

/// A clone of a scope's class atoms has the same deep view: cloning a
/// byte vector keeps its bytes.
proof fn lemma_clone_scope(a: Vec<Vec<u8>>, b: Vec<Vec<u8>>)
    requires
        a.len() == b.len(),
        forall|i: int| #![all_triggers] 0 <= i < a.len() ==> cloned::<Vec<u8>>(a[i], b[i]),
    ensures
        a.deep_view() == b.deep_view(),
{
    assert forall|i: int| 0 <= i < a.len() implies a.deep_view()[i] == b.deep_view()[i] by {
        assert(cloned::<Vec<u8>>(a[i], b[i]));
        if a@[i] == b@[i] {
        } else {
            assert(call_ensures(<Vec<u8> as Clone>::clone, (&a@[i],), b@[i]));
            assert(b@[i].len() == a@[i].len());
            assert forall|k: int| 0 <= k < a@[i]@.len() implies a@[i]@[k] == b@[i]@[k] by {
                assert(cloned::<u8>(a@[i]@[k], b@[i]@[k]));
            }
            assert(a@[i]@ =~= b@[i]@);
        }
    }
    assert(a.deep_view() =~~= b.deep_view());
}

/// Dropping the innermost entry on both sides preserves the model.
proof fn lemma_models_drop_last(stack: Seq<Entry>, st: LineState, base: Seq<u8>, prefix: Seq<u8>)
    requires
        stack_models(stack, st, base, prefix),
        stack.len() > 0,
    ensures
        stack_models(
            stack.drop_last(),
            LineState { pieces: st.pieces, stack: st.stack.drop_last(), cur: st.cur },
            base,
            prefix,
        ),
{
    assert(forall|j: int| 0 <= j < stack.len() - 1 ==> stack.drop_last()[j] == #[trigger] stack[j]);
    assert(forall|j: int|
        0 <= j < st.stack.len() - 1 ==> st.stack.drop_last()[j] == #[trigger] st.stack[j]);
}

/// Renders one line's code cell into `html`, streaming the line's
/// operations against the carried-over scope stack, and replaces `carry`
/// with the scopes still open at the line's end.
#[verifier::rlimit(100)]
pub fn render_line(
    html: &mut Vec<u8>,
    line: &[u8],
    ops: &Vec<LineOp>,
    carry: &mut Vec<Vec<Vec<u8>>>,
    style: &ClassStyle,
)
    ensures
        final(html)@ == old(html)@ + pieces_bytes(
            line_pieces(line@, ops.deep_view(), old(carry).deep_view()).0,
            style.spec_prefix(),
        ),
        final(carry).deep_view() == line_pieces(line@, ops.deep_view(), old(carry).deep_view()).1,
{
    let ghost base = html@;
    let ghost prefix = style.spec_prefix();
    let ghost carry0 = carry.deep_view();
    let ghost opsv = ops.deep_view();

    // Reopen every scope still open from the previous line, outermost first.
    let mut stack: Vec<Entry> = Vec::new();
    let ncarry = carry.len();
    assert(carry0.len() == ncarry);
    assert(html@ == base + pieces_bytes(carry_open_pieces(carry0).take(0), prefix)) by {
        assert(carry_open_pieces(carry0).take(0) =~= Seq::<Piece>::empty());
        assert(html@ =~= base + pieces_bytes(Seq::<Piece>::empty(), prefix));
    }
    for i in 0..ncarry
        invariant
            carry.deep_view() == carry0,
            prefix == style.spec_prefix(),
            ncarry == carry0.len(),
            stack@.len() == i,
            html@ == base + pieces_bytes(carry_open_pieces(carry0).take(i as int), prefix),
            forall|j: int| 0 <= j < i ==> {
                &&& (#[trigger] stack@[j]).scope.deep_view() == carry0[j]
                &&& !stack@[j].elidable
            },
    {
        let ghost ps = carry_open_pieces(carry0).take(i as int);
        push_span_open(html, &carry[i], style);
        let sc = carry[i].clone();
        proof {
            lemma_clone_scope(carry@[i as int], sc);
        }
        stack.push(
            Entry { scope: sc, elidable: false, mark_before: 0, mark_after: 0, mark_idx: Ghost(0) },
        );
        proof {
            assert(carry@[i as int].deep_view() == carry0[i as int]);
            assert(carry_open_pieces(carry0).take(i + 1) =~= ps.push(
                Piece::Open(carry0[i as int]),
            ));
            lemma_pieces_bytes_push(ps, Piece::Open(carry0[i as int]), prefix);
        }
    }
    let ghost st_init = init_state(carry0);
    assert(carry_open_pieces(carry0).take(ncarry as int) =~= carry_open_pieces(carry0));
    assert(stack_models(stack@, st_init, base, prefix)) by {
        assert(forall|j: int|
            0 <= j < ncarry ==> carry_entries(carry0)[j] == (SpecEntry {
                scope: carry0[j],
                mark: None,
            }));
    }
    assert(pieces_all_nonempty(st_init.pieces)) by {
        assert(forall|j: int|
            0 <= j < carry0.len() ==> carry_open_pieces(carry0)[j] == Piece::Open(carry0[j]));
    }

    let mut cur: usize = 0;
    let nops = ops.len();
    assert(opsv.len() == nops);
    assert(opsv.take(0) =~= Seq::<(int, SpecOp)>::empty());
    for k in 0..nops
        invariant
            nops == opsv.len(),
            opsv == ops.deep_view(),
            prefix == style.spec_prefix(),
            ({
                let st = apply_ops(st_init, line@, opsv.take(k as int));
                &&& stack_models(stack@, st, base, prefix)
                &&& html@ == base + pieces_bytes(st.pieces, prefix)
                &&& cur == st.cur
                &&& 0 <= st.cur <= line@.len()
                &&& pieces_all_nonempty(st.pieces)
            }),
    {
        let ghost st = apply_ops(st_init, line@, opsv.take(k as int));
        proof {
            assert(opsv.take(k + 1) =~= opsv.take(k as int).push(opsv[k as int]));
            lemma_apply_ops_snoc(st_init, line@, opsv.take(k as int), opsv[k as int]);
            assert(ops@[k as int].deep_view() == opsv[k as int]);
        }
        let opk: &LineOp = &ops[k];
        let off = opk.offset;
        let end = if off > line.len() {
            line.len()
        } else {
            off
        };
        assert(end as int == clamp_offset(off as int, line@));
        let ghost st_a = emit_text(st, line@, off as int);
        if end > cur {
            let ghost t = Piece::Text(line@.subrange(cur as int, end as int));
            let piece = slice_subrange(line, cur, end);
            escape_push(html, piece);
            proof {
                lemma_pieces_bytes_push(st.pieces, t, prefix);
                lemma_models_grow(stack@, st, st_a, t, base, prefix);
            }
            cur = end;
        } else {
            assert(st_a == st);
        }
        assert(stack_models(stack@, st_a, base, prefix));
        assert(html@ == base + pieces_bytes(st_a.pieces, prefix));
        assert(pieces_all_nonempty(st_a.pieces));
        assert(cur == st_a.cur);
        let ghost st_b = apply_op(st, line@, off as int, opsv[k as int].1);
        match &opk.op {
            ScopeOp::Push(atoms) => {
                let ghost pre_stack = stack@;
                let mark_before = html.len();
                let ghost m = st_a.pieces.len() as int;
                push_span_open(html, atoms, style);
                let mark_after = html.len();
                let sc = atoms.clone();
                proof {
                    lemma_clone_scope(*atoms, sc);
                }
                stack.push(
                    Entry { scope: sc, elidable: true, mark_before, mark_after, mark_idx: Ghost(m) },
                );
                proof {
                    let p = Piece::Open(atoms.deep_view());
                    lemma_pieces_bytes_push(st_a.pieces, p, prefix);
                    assert(st_b.pieces == st_a.pieces.push(p));
                    assert(st_b.stack == st_a.stack.push(
                        SpecEntry { scope: atoms.deep_view(), mark: Some(m) },
                    ));
                    lemma_models_grow(
                        pre_stack,
                        st_a,
                        LineState { pieces: st_b.pieces, stack: st_a.stack, cur: st_a.cur },
                        p,
                        base,
                        prefix,
                    );
                    assert(st_a.pieces.take(m) =~= st_a.pieces);
                    assert(st_b.pieces[m] == p);
                    assert(st_b.pieces.take(m) =~= st_a.pieces);
                    assert forall|j: int| 0 <= j < pre_stack.len() && pre_stack[j].elidable
                        implies pre_stack[j].mark_idx@ < m by {
                        assert(st_a.stack[j].mark is Some);
                        assert(pre_stack[j].mark_idx@ == st_a.stack[j].mark->Some_0);
                        assert(0 <= st_a.stack[j].mark->Some_0 < st_a.pieces.len());
                    }
                    assert(forall|j: int|
                        0 <= j < pre_stack.len() ==> stack@[j] == #[trigger] pre_stack[j]);
                    assert(stack_models(stack@, st_b, base, prefix));
                    assert(pieces_all_nonempty(st_b.pieces)) by {
                        assert(forall|i: int|
                            0 <= i < st_a.pieces.len() ==> st_b.pieces[i] == #[trigger] st_a.pieces[i]);
                    }
                }
            },
            ScopeOp::Pop => {
                if stack.len() > 0 {
                    let ghost pre_stack = stack@;
                    let ghost se = st_a.stack.last();
                    let e_opt = stack.pop();
                    let e = e_opt.unwrap();
                    proof {
                        assert(e == pre_stack.last());
                        assert(stack@ == pre_stack.drop_last());
                        assert(e.elidable <==> se.mark is Some);
                    }
                    if e.elidable {
                        let ghost m = se.mark->Some_0;
                        proof {
                            assert(e.mark_idx@ == m);
                            assert(0 <= m < st_a.pieces.len());
                            assert(st_a.pieces[m] == Piece::Open(se.scope));
                            lemma_pieces_bytes_take(st_a.pieces, m + 1, prefix);
                            assert(st_a.pieces.take(m + 1).drop_last() =~= st_a.pieces.take(m));
                            assert(st_a.pieces.take(m + 1).last() == st_a.pieces[m]);
                            lemma_pieces_bytes_from_len(st_a.pieces, m + 1, prefix);
                            assert(html@.len() == e.mark_after + pieces_bytes_from(
                                st_a.pieces,
                                m + 1,
                                prefix,
                            ).len());
                        }
                        if html.len() == e.mark_after {
                            proof {
                                assert(pieces_bytes_from(st_a.pieces, m + 1, prefix).len() == 0);
                                assert(st_a.pieces.len() == m + 1);
                                assert(st_b.pieces == st_a.pieces.take(m));
                                assert(st_b.stack == st_a.stack.drop_last());
                            }
                            html.truncate(e.mark_before);
                            proof {
                                assert(st_a.pieces.take(m + 1) =~= st_a.pieces);
                                assert(pieces_bytes(st_a.pieces, prefix) == pieces_bytes(
                                    st_a.pieces.take(m),
                                    prefix,
                                ) + piece_bytes(st_a.pieces[m], prefix));
                                assert(html@ =~= base + pieces_bytes(st_b.pieces, prefix));
                                lemma_models_truncate(pre_stack, st_a, base, prefix);
                                assert(pieces_all_nonempty(st_b.pieces)) by {
                                    assert(forall|i: int|
                                        0 <= i < m ==> st_b.pieces[i] == #[trigger] st_a.pieces[i]);
                                }
                            }
                        } else {
                            proof {
                                assert(st_a.pieces.len() != m + 1) by {
                                    if st_a.pieces.len() == m + 1 {
                                        assert(pieces_bytes_from(st_a.pieces, m + 1, prefix)
                                            =~= Seq::<u8>::empty());
                                    }
                                }
                                assert(st_b.pieces == st_a.pieces.push(Piece::Close));
                                assert(st_b.stack == st_a.stack.drop_last());
                            }
                            push_span_close(html);
                            proof {
                                lemma_pieces_bytes_push(st_a.pieces, Piece::Close, prefix);
                                lemma_models_drop_last(pre_stack, st_a, base, prefix);
                                lemma_models_grow(
                                    stack@,
                                    LineState {
                                        pieces: st_a.pieces,
                                        stack: st_a.stack.drop_last(),
                                        cur: st_a.cur,
                                    },
                                    LineState {
                                        pieces: st_b.pieces,
                                        stack: st_a.stack.drop_last(),
                                        cur: st_a.cur,
                                    },
                                    Piece::Close,
                                    base,
                                    prefix,
                                );
                                assert(pieces_all_nonempty(st_b.pieces)) by {
                                    assert(forall|i: int|
                                        0 <= i < st_a.pieces.len() ==> st_b.pieces[i]
                                            == #[trigger] st_a.pieces[i]);
                                }
                            }
                        }
                    } else {
                        proof {
                            assert(se.mark is None);
                            assert(st_b.pieces == st_a.pieces.push(Piece::Close));
                            assert(st_b.stack == st_a.stack.drop_last());
                        }
                        push_span_close(html);
                        proof {
                            lemma_pieces_bytes_push(st_a.pieces, Piece::Close, prefix);
                            lemma_models_drop_last(pre_stack, st_a, base, prefix);
                            lemma_models_grow(
                                stack@,
                                LineState {
                                    pieces: st_a.pieces,
                                    stack: st_a.stack.drop_last(),
                                    cur: st_a.cur,
                                },
                                LineState {
                                    pieces: st_b.pieces,
                                    stack: st_a.stack.drop_last(),
                                    cur: st_a.cur,
                                },
                                Piece::Close,
                                base,
                                prefix,
                            );
                            assert(pieces_all_nonempty(st_b.pieces)) by {
                                assert(forall|i: int|
                                    0 <= i < st_a.pieces.len() ==> st_b.pieces[i]
                                        == #[trigger] st_a.pieces[i]);
                            }
                        }
                    }
                } else {
                    assert(st_b == st_a);
                }
            },
        }
    }
    assert(opsv.take(nops as int) =~= opsv);
    let ghost st_n = apply_ops(st_init, line@, opsv);

    // Trailing text after the last operation.
    let end = line.len();
    let ghost st_f = emit_text(st_n, line@, line@.len() as int);
    if end > cur {
        let ghost t = Piece::Text(line@.subrange(cur as int, end as int));
        let piece = slice_subrange(line, cur, end);
        escape_push(html, piece);
        proof {
            lemma_pieces_bytes_push(st_n.pieces, t, prefix);
            lemma_models_grow(stack@, st_n, st_f, t, base, prefix);
        }
    } else {
        assert(st_f == st_n);
    }
    assert(html@ == base + pieces_bytes(st_f.pieces, prefix));
    assert(stack_models(stack@, st_f, base, prefix));

    // Close every scope still open; each survives into the next line, so no
    // end-of-line close is elided.
    let depth = stack.len();
    assert(st_f.stack.len() == depth);
    assert(st_f.pieces + closes(0) =~= st_f.pieces);
    for j in 0..depth
        invariant
            prefix == style.spec_prefix(),
            html@ == base + pieces_bytes(st_f.pieces + closes(j as nat), prefix),
    {
        push_span_close(html);
        proof {
            assert(st_f.pieces + closes((j + 1) as nat) =~= (st_f.pieces + closes(j as nat)).push(
                Piece::Close,
            ));
            lemma_pieces_bytes_push(st_f.pieces + closes(j as nat), Piece::Close, prefix);
        }
    }

    // The scopes still open carry over to the next line.
    let mut new_carry: Vec<Vec<Vec<u8>>> = Vec::new();
    assert(new_carry.deep_view() =~~= stack_scopes(st_f.stack).take(0));
    for j in 0..depth
        invariant
            depth == st_f.stack.len(),
            depth == stack@.len(),
            stack_models(stack@, st_f, base, prefix),
            new_carry.deep_view() == stack_scopes(st_f.stack).take(j as int),
    {
        let ghost prev = new_carry.deep_view();
        let ghost prev_v = new_carry@;
        let sc = stack[j].scope.clone();
        proof {
            lemma_clone_scope(stack@[j as int].scope, sc);
        }
        new_carry.push(sc);
        proof {
            assert(prev.len() == j);
            assert(prev_v.len() == j);
            assert(new_carry@ == prev_v.push(sc));
            assert(new_carry.deep_view().len() == j + 1);
            assert(new_carry.deep_view()[j as int] == sc.deep_view());
            assert(forall|t: int| 0 <= t < j ==> new_carry.deep_view()[t] == #[trigger] prev[t]);
            assert(sc.deep_view() == st_f.stack[j as int].scope);
            assert(stack_scopes(st_f.stack)[j as int] == st_f.stack[j as int].scope);
            assert(new_carry.deep_view() =~~= stack_scopes(st_f.stack).take(j + 1));
        }
    }
    assert(stack_scopes(st_f.stack).take(depth as int) =~= stack_scopes(st_f.stack));
    *carry = new_carry;
    assert(line_pieces(line@, opsv, carry0).0 == st_f.pieces + closes(st_f.stack.len()));
    assert(line_pieces(line@, opsv, carry0).1 == stack_scopes(st_f.stack));
}


// ---------------------------------------------------------------------------
// The table: one row per line
// ---------------------------------------------------------------------------

/// The body of one table row: either the nested pieces of a highlighted
/// code cell, or the raw bytes of a line too long to highlight — the whole
/// line, trailing newline included, with no escaping and no tags.
pub enum RowBody {
    Cells(Seq<Piece>),
    Raw(Seq<u8>),
}

/// One table row: its 1-based line number and its code cell.
pub struct SpecRow {
    pub number: int,
    pub body: RowBody,
}

/// The spec-level form of the optional line-length limit.
pub open spec fn spec_max(max: Option<usize>) -> Option<int> {
    match max {
        Option::Some(n) => Option::Some(n as int),
        Option::None => Option::None,
    }
}

/// A line longer than the configured limit bypasses highlighting.
pub open spec fn long_line(line: Seq<u8>, max: Option<int>) -> bool {
    match max {
        Option::Some(n) => line.len() > n,
        Option::None => false,
    }
}

/// The rows for the remaining lines, starting at 1-based line number `num`
/// with the scopes in `carry` still open. A long line is emitted raw and
/// leaves the carried scopes and the parser untouched; any other line is
/// rendered against its operations.
pub open spec fn table_rows_from(
    lines: Seq<Seq<u8>>,
    opss: Seq<Seq<(int, SpecOp)>>,
    carry: Seq<Seq<Seq<u8>>>,
    max: Option<int>,
    num: int,
) -> Seq<SpecRow>
    decreases lines.len(),
{
    if lines.len() == 0 {
        Seq::empty()
    } else if long_line(lines[0], max) {
        seq![SpecRow { number: num, body: RowBody::Raw(lines[0]) }] + table_rows_from(
            lines.drop_first(),
            opss.drop_first(),
            carry,
            max,
            num + 1,
        )
    } else {
        let r = line_pieces(lines[0], opss[0], carry);
        seq![SpecRow { number: num, body: RowBody::Cells(r.0) }] + table_rows_from(
            lines.drop_first(),
            opss.drop_first(),
            r.1,
            max,
            num + 1,
        )
    }
}

/// The rows of a whole rendering pass: line numbers start at 1 and no scope
/// is open before the first line.
pub open spec fn table_rows(
    lines: Seq<Seq<u8>>,
    opss: Seq<Seq<(int, SpecOp)>>,
    max: Option<int>,
) -> Seq<SpecRow> {
    table_rows_from(lines, opss, Seq::empty(), max, 1)
}

/// The bytes of a row's code cell.
pub open spec fn row_body_bytes(b: RowBody, prefix: Seq<u8>) -> Seq<u8> {
    match b {
        RowBody::Cells(ps) => pieces_bytes(ps, prefix),
        RowBody::Raw(raw) => raw,
    }
}

/// The bytes of one row: its marker, its code cell, and its closing.
pub open spec fn row_bytes(r: SpecRow, prefix: Seq<u8>) -> Seq<u8> {
    crate::markup::row_open_bytes(r.number as nat) + row_body_bytes(r.body, prefix)
        + crate::markup::row_close_bytes()
}

/// The bytes of a sequence of rows.
pub open spec fn rows_bytes(rs: Seq<SpecRow>, prefix: Seq<u8>) -> Seq<u8>
    decreases rs.len(),
{
    if rs.len() == 0 {
        Seq::empty()
    } else {
        rows_bytes(rs.drop_last(), prefix) + row_bytes(rs.last(), prefix)
    }
}

/// The whole document: the table wrapper around one row per line.
pub open spec fn table_bytes(
    lines: Seq<Seq<u8>>,
    opss: Seq<Seq<(int, SpecOp)>>,
    prefix: Seq<u8>,
    max: Option<int>,
) -> Seq<u8> {
    crate::markup::table_open_bytes() + rows_bytes(table_rows(lines, opss, max), prefix)
        + crate::markup::table_close_bytes()
}

/// Appending a row appends its bytes.
proof fn lemma_rows_bytes_push(rs: Seq<SpecRow>, r: SpecRow, prefix: Seq<u8>)
    ensures
        rows_bytes(rs.push(r), prefix) == rows_bytes(rs, prefix) + row_bytes(r, prefix),
{
    assert(rs.push(r).drop_last() == rs);
    assert(rs.push(r).last() == r);
}

/// Renders a whole source, already split into lines, with the operation
/// list of each line: the table wrapper, then one row per line, each
/// carrying its 1-based line number. Rows for lines longer than
/// `max_line_len` hold the raw line; all others hold the line's nested,
/// escaped cell.
#[verifier::rlimit(100)]
pub fn render_table(
    lines: &Vec<Vec<u8>>,
    oplists: &Vec<Vec<LineOp>>,
    style: &ClassStyle,
    max_line_len: Option<usize>,
) -> (out: Vec<u8>)
    requires
        oplists@.len() == lines@.len(),
    ensures
        out@ == table_bytes(
            lines.deep_view(),
            oplists.deep_view(),
            style.spec_prefix(),
            spec_max(max_line_len),
        ),
{
    let ghost linesv = lines.deep_view();
    let ghost opssv = oplists.deep_view();
    let ghost prefix = style.spec_prefix();
    let ghost max = spec_max(max_line_len);

    let mut out: Vec<u8> = Vec::new();
    crate::markup::open_table(&mut out);
    let mut carry: Vec<Vec<Vec<u8>>> = Vec::new();
    let ghost mut done: Seq<SpecRow> = Seq::empty();
    let n = lines.len();
    proof {
        assert(linesv.len() == n);
        assert(opssv.len() == n);
        assert(carry.deep_view() =~~= Seq::<Seq<Seq<u8>>>::empty());
        assert(linesv.skip(0) =~= linesv);
        assert(opssv.skip(0) =~= opssv);
        assert(out@ =~= crate::markup::table_open_bytes() + rows_bytes(done, prefix));
    }
    for i in 0..n
        invariant
            n == linesv.len(),
            n == opssv.len(),
            linesv == lines.deep_view(),
            opssv == oplists.deep_view(),
            prefix == style.spec_prefix(),
            max == spec_max(max_line_len),
            table_rows(linesv, opssv, max) == done + table_rows_from(
                linesv.skip(i as int),
                opssv.skip(i as int),
                carry.deep_view(),
                max,
                i + 1,
            ),
            out@ == crate::markup::table_open_bytes() + rows_bytes(done, prefix),
    {
        let ghost rest_l = linesv.skip(i as int);
        let ghost rest_o = opssv.skip(i as int);
        let ghost carry_in = carry.deep_view();
        proof {
            assert(rest_l[0] == linesv[i as int]);
            assert(rest_o[0] == opssv[i as int]);
            assert(rest_l.drop_first() =~~= linesv.skip(i + 1));
            assert(rest_o.drop_first() =~~= opssv.skip(i + 1));
            assert(lines@[i as int].deep_view() =~= lines@[i as int]@);
            assert(linesv[i as int] == lines@[i as int].deep_view());
            assert(opssv[i as int] == oplists@[i as int].deep_view());
        }
        crate::markup::open_row(&mut out, i);
        let line = &lines[i];
        let is_long = match max_line_len {
            Option::Some(limit) => line.len() > limit,
            Option::None => false,
        };
        assert(is_long == long_line(linesv[i as int], max));
        if is_long {
            let ghost row = SpecRow { number: i + 1, body: RowBody::Raw(linesv[i as int]) };
            crate::markup::push_bytes(&mut out, line.as_slice());
            crate::markup::close_row(&mut out);
            proof {
                assert(table_rows_from(rest_l, rest_o, carry_in, max, i + 1) == seq![row]
                    + table_rows_from(linesv.skip(i + 1), opssv.skip(i + 1), carry_in, max, i + 2));
                assert(done + table_rows_from(rest_l, rest_o, carry_in, max, i + 1) =~= done.push(
                    row,
                ) + table_rows_from(linesv.skip(i + 1), opssv.skip(i + 1), carry_in, max, i + 2));
                lemma_rows_bytes_push(done, row, prefix);
                assert(row_bytes(row, prefix) == crate::markup::row_open_bytes((i + 1) as nat)
                    + linesv[i as int] + crate::markup::row_close_bytes());
                done = done.push(row);
                assert(out@ =~= crate::markup::table_open_bytes() + rows_bytes(done, prefix));
            }
        } else {
            let ghost r = line_pieces(linesv[i as int], opssv[i as int], carry_in);
            let ghost row = SpecRow { number: i + 1, body: RowBody::Cells(r.0) };
            render_line(&mut out, line.as_slice(), &oplists[i], &mut carry, style);
            crate::markup::close_row(&mut out);
            proof {
                assert(carry.deep_view() == r.1);
                assert(table_rows_from(rest_l, rest_o, carry_in, max, i + 1) == seq![row]
                    + table_rows_from(linesv.skip(i + 1), opssv.skip(i + 1), r.1, max, i + 2));
                assert(done + table_rows_from(rest_l, rest_o, carry_in, max, i + 1) =~= done.push(
                    row,
                ) + table_rows_from(linesv.skip(i + 1), opssv.skip(i + 1), r.1, max, i + 2));
                lemma_rows_bytes_push(done, row, prefix);
                done = done.push(row);
                assert(out@ =~= crate::markup::table_open_bytes() + rows_bytes(done, prefix));
            }
        }
    }
    proof {
        assert(linesv.skip(n as int).len() == 0);
        assert(table_rows_from(
            linesv.skip(n as int),
            opssv.skip(n as int),
            carry.deep_view(),
            max,
            n + 1,
        ) =~= Seq::<SpecRow>::empty());
        assert(table_rows(linesv, opssv, max) =~= done);
    }
    crate::markup::close_table(&mut out);
    assert(out@ =~= table_bytes(linesv, opssv, prefix, max));
    out
}


} // verus!
