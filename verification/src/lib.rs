use vstd::prelude::*;

pub mod ascii;
pub mod escape;
pub mod filepath;
pub mod lines;
pub mod markup;
pub mod render;
pub mod tokenize;
pub mod highlight;
pub mod properties;

pub use escape::Escape;
pub use highlight::{css_table_highlight, ClassedTableGenerator, CSSTableQuery};
pub use markup::{close_row, close_table, open_row, open_table, ClassStyle};
pub use render::{render_table, LineOp, ScopeOp};

verus! {

/// The service's liveness answer.
pub fn health() -> (r: &'static str)
    ensures
        r@ == "OK"@,
{
    "OK"
}

} // verus!
