use vstd::prelude::*;
use vstd::utf8::{valid_utf8, decode_utf8};
use syntect::parsing::{ParseState, Scope, ScopeStack, ScopeStackOp, SyntaxReference, SyntaxSet};
use crate::render::{LineOp, ScopeOp};

verus! {

// The external tokenizer's types, declared so that values of them can pass
// through this library. All of them are opaque here: what the library
// proves never depends on their contents.

#[verifier::external_type_specification]
#[verifier::external_body]
pub struct ExSyntaxSet(SyntaxSet);

#[verifier::external_type_specification]
#[verifier::external_body]
pub struct ExSyntaxReference(SyntaxReference);

#[verifier::external_type_specification]
#[verifier::external_body]
pub struct ExParseState(ParseState);

#[verifier::external_type_specification]
#[verifier::external_body]
pub struct ExScopeStack(ScopeStack);

#[verifier::external_type_specification]
#[verifier::external_body]
pub struct ExScopeStackOp(ScopeStackOp);

#[verifier::external_type_specification]
#[verifier::external_body]
pub struct ExScope(Scope);

/// Relies on syntect's SyntaxSet::find_syntax_by_extension: looks up a
/// syntax definition whose declared extensions contain `extension`.
#[verifier::external_body]
pub(crate) fn find_syntax_by_extension<'a>(ss: &'a SyntaxSet, extension: &str) -> Option<
    &'a SyntaxReference,
> {
    ss.find_syntax_by_extension(extension)
}

/// Relies on syntect's SyntaxSet::find_syntax_by_first_line: matches the
/// first line of `code` against each syntax definition's first-line
/// pattern. The patterns compile lazily and syntect unwraps the compile
/// result on the assumption that every pattern in a set was pre-tested;
/// that holds of the bundled defaults, but a set deserialized with a
/// non-compiling pattern would panic inside the call.
#[verifier::external_body]
pub(crate) fn find_syntax_by_first_line<'a>(ss: &'a SyntaxSet, code: &str) -> Option<
    &'a SyntaxReference,
> {
    ss.find_syntax_by_first_line(code)
}

/// Relies on syntect's SyntaxSet::find_syntax_by_name, applied to the name
/// under which syntect's own plain-text accessor looks its definition up.
/// That accessor unwraps the lookup and panics on a set built without a
/// plain-text syntax; going through the lookup itself instead returns
/// `None` for such a set, and the callers fall back to rendering without
/// highlighting.
#[verifier::external_body]
pub(crate) fn find_syntax_plain_text<'a>(ss: &'a SyntaxSet) -> Option<&'a SyntaxReference> {
    ss.find_syntax_by_name("Plain Text")
}

/// Relies on syntect's ParseState::new: fresh parsing state for one
/// rendering pass over a source text.
#[verifier::external_body]
pub(crate) fn parse_state_new(syntax: &SyntaxReference) -> ParseState {
    ParseState::new(syntax)
}

/// Relies on syntect's ScopeStack::new: the empty scope stack.
#[verifier::external_body]
pub(crate) fn scope_stack_new() -> ScopeStack {
    ScopeStack::new()
}

/// Relies on syntect's ParseState::parse_line: advances the parser by one
/// line and returns its scope-stack operations, each at a byte offset into
/// the line. The line's bytes come from a `String`, so the lossy
/// conversion handing them back to the tokenizer is exact. A parse error —
/// possible when the state was built against another syntax set, or when
/// its context stack is exhausted — yields no operations, and the line
/// renders as plain text.
#[verifier::external_body]
fn parse_line_raw(state: &mut ParseState, ss: &SyntaxSet, line: &[u8]) -> Vec<
    (usize, ScopeStackOp),
> {
    state.parse_line(&String::from_utf8_lossy(line), ss).unwrap_or_default()
}

/// One elementary change of the scope stack.
enum BasicOp {
    Push(Scope),
    Pop,
}

/// Relies on syntect's ScopeStack::apply_with_hook: applies one operation
/// to the stack and reports each elementary push or pop it performs. A
/// `Restore` operation fails when no scopes were cleared before it; the
/// parser emits each `Restore` after a matching `Clear`, so the operation
/// streams it produces, applied in order from the first line on, do not
/// reach that case, and the error is dropped.
#[verifier::external_body]
fn apply_basic(stack: &mut ScopeStack, op: &ScopeStackOp) -> Vec<BasicOp> {
    let mut out = Vec::new();
    let _ = stack.apply_with_hook(op, |b, _| match b {
        syntect::parsing::BasicScopeStackOp::Push(scope) => out.push(BasicOp::Push(scope)),
        syntect::parsing::BasicScopeStackOp::Pop => out.push(BasicOp::Pop),
    });
    out
}

/// Relies on syntect's Scope::atom_at and ScopeRepository::atom_str: reads
/// a scope's dotted atoms out of the global scope repository, as byte
/// strings. Atom numbers of a scope built by the repository are always
/// valid indexes into it.
#[verifier::external_body]
fn scope_atoms(scope: &Scope) -> Vec<Vec<u8>> {
    let repo = syntect::parsing::SCOPE_REPO.lock().unwrap();
    let mut atoms = Vec::new();
    for i in 0..(scope.len() as usize) {
        atoms.push(repo.atom_str(scope.atom_at(i)).as_bytes().to_vec());
    }
    atoms
}

/// What String::from_utf8_lossy returns: a function of the bytes alone.
pub uninterp spec fn lossy_decode(bytes: Seq<u8>) -> Seq<char>;

/// Relies on String::from_utf8_lossy: decodes the bytes as UTF-8,
/// replacing invalid sequences; valid UTF-8 decodes exactly.
#[verifier::external_body]
pub(crate) fn bytes_to_string(b: &Vec<u8>) -> (r: String)
    ensures
        r@ == lossy_decode(b@),
        valid_utf8(b@) ==> r@ == decode_utf8(b@),
{
    String::from_utf8_lossy(b.as_slice()).into_owned()
}

/// Tokenizes the lines of one source in order: each line is parsed against
/// the running parser state, and its operations are applied to the running
/// scope stack to obtain the elementary pushes and pops the renderer
/// consumes, with each pushed scope converted to its class atoms. A line
/// longer than `max_line_len` is skipped whole — its row is emitted raw —
/// so neither the parser state nor the scope stack advances over it, and
/// its operation list stays empty.
pub fn tokenize_lines(
    state: &mut ParseState,
    stack: &mut ScopeStack,
    ss: &SyntaxSet,
    lines: &Vec<Vec<u8>>,
    max_line_len: Option<usize>,
) -> (r: Vec<Vec<LineOp>>)
    ensures
        r@.len() == lines@.len(),
        forall|i: int|
            0 <= i < lines@.len() && crate::render::long_line(
                lines.deep_view()[i],
                crate::render::spec_max(max_line_len),
            ) ==> (#[trigger] r@[i])@.len() == 0,
{
    let mut out: Vec<Vec<LineOp>> = Vec::new();
    let n = lines.len();
    for i in 0..n
        invariant
            n == lines@.len(),
            out@.len() == i,
            forall|j: int|
                0 <= j < i && crate::render::long_line(
                    lines.deep_view()[j],
                    crate::render::spec_max(max_line_len),
                ) ==> (#[trigger] out@[j])@.len() == 0,
    {
        let line = &lines[i];
        let is_long = match max_line_len {
            Option::Some(limit) => line.len() > limit,
            Option::None => false,
        };
        let mut lops: Vec<LineOp> = Vec::new();
        if !is_long {
            let raw = parse_line_raw(state, ss, line.as_slice());
            let m = raw.len();
            for k in 0..m
                invariant
                    m == raw@.len(),
            {
                let pair = &raw[k];
                let off = pair.0;
                let basics = apply_basic(stack, &pair.1);
                let bn = basics.len();
                for t in 0..bn
                    invariant
                        bn == basics@.len(),
                {
                    match &basics[t] {
                        BasicOp::Push(scope) => {
                            lops.push(
                                LineOp { offset: off, op: ScopeOp::Push(scope_atoms(scope)) },
                            );
                        },
                        BasicOp::Pop => {
                            lops.push(LineOp { offset: off, op: ScopeOp::Pop });
                        },
                    }
                }
            }
        }
        proof {
            assert(lines.deep_view()[i as int] =~= lines@[i as int]@);
        }
        out.push(lops);
    }
    out
}

} // verus!
