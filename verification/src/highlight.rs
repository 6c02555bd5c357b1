use vstd::prelude::*;
use vstd::string::StringSliceAdditionalSpecFns;
use syntect::parsing::{ParseState, ScopeStack, SyntaxReference, SyntaxSet};
use crate::lines::{lines_of, split_lines};
use crate::markup::ClassStyle;
use crate::render::{render_table, spec_max, table_bytes, LineOp, SpecOp};
use vstd::string::StrSliceExecFns;
use crate::tokenize::{
    bytes_to_string, find_syntax_by_extension, find_syntax_by_first_line, find_syntax_plain_text,
    lossy_decode, parse_state_new, scope_stack_new, tokenize_lines,
};

verus! {

/// One highlighting request: the path the source came from, which picks
/// the grammar; the source text; and the optional line-length limit past
/// which a line is emitted raw instead of highlighted.
pub struct CSSTableQuery {
    pub filepath: String,
    pub code: String,
    pub line_length_limit: Option<usize>,
}

/// Picks the syntax definition for a file: first by its whole file name —
/// some grammars match a full name such as a build file's — then by its
/// extension, then by the first line of the source, and plain text when
/// all three fail. `None` only for a syntax set that matches nothing and
/// holds no plain-text definition either; such a source renders with no
/// highlighting at all.
pub fn select_syntax<'a>(
    ss: &'a SyntaxSet,
    file_name: &str,
    extension: &str,
    code: &str,
) -> Option<&'a SyntaxReference> {
    match find_syntax_by_extension(ss, file_name) {
        Option::Some(syntax) => Option::Some(syntax),
        Option::None => match find_syntax_by_extension(ss, extension) {
            Option::Some(syntax) => Option::Some(syntax),
            Option::None => match find_syntax_by_first_line(ss, code) {
                Option::Some(syntax) => Option::Some(syntax),
                Option::None => find_syntax_plain_text(ss),
            },
        },
    }
}

/// The outcome of the legacy syntax lookup: a grammar; the plain-text
/// fallback; a rejection when the request named no file path and its bare
/// extension matched nothing; or, for a degenerate syntax set only, a
/// rejection because nothing matched and the set holds no plain-text
/// definition to fall back to.
pub enum SyntaxLookup<'a> {
    Found(&'a SyntaxReference),
    Plaintext(&'a SyntaxReference),
    InvalidExtension,
    MissingPlainText,
}

/// The legacy lookup: a request without a file path carries a bare
/// extension and is rejected when neither it nor the source's first line
/// matches a grammar; a request with a file path always gets a grammar,
/// falling back to plain text.
pub fn lookup_syntax<'a>(
    ss: &'a SyntaxSet,
    filepath: &str,
    extension: &str,
    code: &str,
) -> (r: SyntaxLookup<'a>)
    ensures
        filepath@.len() > 0 ==> !(r is InvalidExtension),
        r is MissingPlainText ==> filepath@.len() > 0,
{
    if filepath.unicode_len() == 0 {
        match find_syntax_by_extension(ss, extension) {
            Option::Some(syntax) => SyntaxLookup::Found(syntax),
            Option::None => match find_syntax_by_first_line(ss, code) {
                Option::Some(syntax) => SyntaxLookup::Found(syntax),
                Option::None => SyntaxLookup::InvalidExtension,
            },
        }
    } else {
        let (file_name, ext) = crate::filepath::split_filepath(filepath);
        match find_syntax_by_extension(ss, file_name.as_str()) {
            Option::Some(syntax) => SyntaxLookup::Found(syntax),
            Option::None => match find_syntax_by_extension(ss, ext.as_str()) {
                Option::Some(syntax) => SyntaxLookup::Found(syntax),
                Option::None => match find_syntax_by_first_line(ss, code) {
                    Option::Some(syntax) => SyntaxLookup::Found(syntax),
                    Option::None => match find_syntax_plain_text(ss) {
                        Option::Some(syntax) => SyntaxLookup::Plaintext(syntax),
                        Option::None => SyntaxLookup::MissingPlainText,
                    },
                },
            },
        }
    }
}

/// Renders a source text as an HTML table, one row per line, with nested
/// spans for the scopes the tokenizer assigns. The output a generator's
/// `generate` returns is fixed, byte for byte, by the renderer's table
/// specification, over whatever operation lists the tokenizer produced for
/// the source's lines.
pub struct ClassedTableGenerator<'a> {
    syntax_set: &'a SyntaxSet,
    parse_state: ParseState,
    stack: ScopeStack,
    code: &'a str,
    style: ClassStyle,
    max_line_len: Option<usize>,
}

impl<'a> ClassedTableGenerator<'a> {
    /// The bytes of the source this generator renders.
    pub closed spec fn spec_code_bytes(&self) -> Seq<u8> {
        self.code.spec_bytes()
    }

    /// The class-atom prefix of this generator's style.
    pub closed spec fn spec_style_prefix(&self) -> Seq<u8> {
        self.style.spec_prefix()
    }

    /// This generator's line-length limit.
    pub closed spec fn spec_max_line_len(&self) -> Option<int> {
        spec_max(self.max_line_len)
    }

    /// A generator for one rendering pass: fresh parser state, empty
    /// carry-over stack.
    pub fn new(
        ss: &'a SyntaxSet,
        sr: &SyntaxReference,
        code: &'a str,
        max_line_len: Option<usize>,
        style: ClassStyle,
    ) -> (r: ClassedTableGenerator<'a>)
        ensures
            r.spec_code_bytes() == code.spec_bytes(),
            r.spec_style_prefix() == style.spec_prefix(),
            r.spec_max_line_len() == spec_max(max_line_len),
    {
        ClassedTableGenerator {
            syntax_set: ss,
            parse_state: parse_state_new(sr),
            stack: scope_stack_new(),
            code,
            style,
            max_line_len,
        }
    }

    /// Renders the whole source. Taking the generator by value makes one
    /// pass final: the parser state and carry-over stack cannot be reused.
    /// The result is the rendered table's bytes, decoded to text: one row
    /// per line of the source, as the table specification states, for the
    /// operation lists the tokenizer handed back.
    pub fn generate(self) -> (r: String)
        ensures
            exists|opss: Seq<Seq<(int, SpecOp)>>|
                {
                    &&& opss.len() == lines_of(self.spec_code_bytes()).len()
                    &&& r@ == lossy_decode(
                        #[trigger] table_bytes(
                            lines_of(self.spec_code_bytes()),
                            opss,
                            self.spec_style_prefix(),
                            self.spec_max_line_len(),
                        ),
                    )
                },
    {
        let code_bytes = self.code.as_bytes_vec();
        let lines = split_lines(code_bytes.as_slice());
        let mut state = self.parse_state;
        let mut stack = self.stack;
        let oplists = tokenize_lines(
            &mut state,
            &mut stack,
            self.syntax_set,
            &lines,
            self.max_line_len,
        );
        let out = render_table(&lines, &oplists, &self.style, self.max_line_len);
        let r = bytes_to_string(&out);
        proof {
            let linesv = lines_of(self.spec_code_bytes());
            let opss = oplists.deep_view();
            assert(lines.deep_view() == linesv);
            assert(opss.len() == oplists@.len());
            assert(r@ == lossy_decode(
                table_bytes(linesv, opss, self.spec_style_prefix(), self.spec_max_line_len()),
            ));
        }
        r
    }
}

/// The class prefix of the table endpoint: `hl-`.
pub open spec fn hl_prefix() -> Seq<u8> {
    seq![104u8, 108u8, 45u8]
}

/// Serves one table request: picks the grammar from the request's file
/// path (falling back to plain text), then renders the source with every
/// class atom prefixed by `hl-`.
pub fn css_table_highlight(syntax_set: &SyntaxSet, q: CSSTableQuery) -> (r: String)
    ensures
        exists|opss: Seq<Seq<(int, SpecOp)>>|
            {
                &&& opss.len() == lines_of(vstd::utf8::encode_utf8(q.code@)).len()
                &&& r@ == lossy_decode(
                    #[trigger] table_bytes(
                        lines_of(vstd::utf8::encode_utf8(q.code@)),
                        opss,
                        hl_prefix(),
                        spec_max(q.line_length_limit),
                    ),
                )
            },
{
    let (file_name, extension) = crate::filepath::split_filepath(q.filepath.as_str());
    let prefix: Vec<u8> = vec![104u8, 108u8, 45u8];  // "hl-"
    assert(prefix@ =~= hl_prefix());
    let style = ClassStyle::SpacedPrefixed { prefix };
    match select_syntax(syntax_set, file_name.as_str(), extension.as_str(), q.code.as_str()) {
        Option::Some(syntax_def) => ClassedTableGenerator::new(
            syntax_set,
            syntax_def,
            q.code.as_str(),
            q.line_length_limit,
            style,
        ).generate(),
        Option::None => {
            // No grammar and no plain-text fallback in the set: render the
            // source with no operations at all, every row plain escaped text.
            let code_bytes = q.code.as_str().as_bytes_vec();
            let lines = split_lines(code_bytes.as_slice());
            let mut oplists: Vec<Vec<LineOp>> = Vec::new();
            let n = lines.len();
            for i in 0..n
                invariant
                    oplists@.len() == i,
            {
                oplists.push(Vec::new());
            }
            let out = render_table(&lines, &oplists, &style, q.line_length_limit);
            let r = bytes_to_string(&out);
            proof {
                let linesv = lines_of(vstd::utf8::encode_utf8(q.code@));
                let opss = oplists.deep_view();
                assert(lines.deep_view() == linesv);
                assert(opss.len() == linesv.len());
                assert(r@ == lossy_decode(
                    table_bytes(linesv, opss, hl_prefix(), spec_max(q.line_length_limit)),
                ));
            }
            r
        },
    }
}

} // verus!
