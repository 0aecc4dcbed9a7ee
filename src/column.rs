//! One column of the image: its escape counts turned into colours.

use vstd::prelude::*;
use crate::color::{Color, color_of_count, color_spec};

verus! {

/// The size of the image being rendered, in pixels.
#[derive(Clone, Copy, Debug, PartialEq, Eq, Structural)]
pub struct ImageSpec {
    pub width: u32,
    pub height: u32,
}

/// A finished column: its index and one colour per row, top to bottom.
#[derive(Clone, Debug)]
pub struct ColumnResult {
    pub column_index: u32,
    pub pixels: Vec<Color>,
}

impl View for ColumnResult {
    type V = (u32, Seq<(u8, u8, u8)>);

    open spec fn view(&self) -> (u32, Seq<(u8, u8, u8)>) {
        (self.column_index, self.pixels@.map_values(|c: Color| c.rgb()))
    }
}

/// The column whose rows stopped their escape loops with the given counts.
pub open spec fn column_spec(column_index: u32, counts: Seq<u32>) -> (u32, Seq<(u8, u8, u8)>) {
    (column_index, counts.map_values(|i: u32| color_spec(i)))
}

/// Builds column `column_index` from the escape count of each of its rows.
/// The result depends on the arguments alone.
pub fn column_from_counts(column_index: u32, counts: &Vec<u32>) -> (col: ColumnResult)
    ensures
        col@ == column_spec(column_index, counts@),
{
    let mut pixels: Vec<Color> = Vec::new();
    let mut y: usize = 0;
    while y < counts.len()
        invariant
            y <= counts@.len(),
            pixels@.len() == y,
            forall|k: int| 0 <= k < y ==> #[trigger] pixels@[k].rgb() == color_spec(counts@[k]),
        decreases counts@.len() - y,
    {
        pixels.push(color_of_count(counts[y]));
        y = y + 1;
    }
    let col = ColumnResult { column_index, pixels };
    assert(col@.1 =~= column_spec(column_index, counts@).1);
    col
}

/// Whether `counts` are escape counts that `escape` may return for the rows
/// `0..height` of column `column_index`.
pub open spec fn escape_counts<F: Fn(u32, u32) -> u32>(
    escape: &F,
    column_index: u32,
    height: u32,
    counts: Seq<u32>,
) -> bool {
    &&& counts.len() == height
    &&& forall|y: int| 0 <= y < height ==> #[trigger] escape.ensures((column_index, y as u32), counts[y])
}

/// Whether `col` is column `column_index`, `height` rows tall, built from escape
/// counts that `escape` may return for it.
pub open spec fn computed_by<F: Fn(u32, u32) -> u32>(
    escape: &F,
    column_index: u32,
    height: u32,
    col: (u32, Seq<(u8, u8, u8)>),
) -> bool {
    exists|counts: Seq<u32>|
        escape_counts(escape, column_index, height, counts) && col == column_spec(column_index, counts)
}

/// Whether `escape` gives each pixel of column `column_index` a single count.
pub open spec fn escape_deterministic<F: Fn(u32, u32) -> u32>(escape: &F, column_index: u32) -> bool {
    forall|y: u32, a: u32, b: u32|
        #[trigger] escape.ensures((column_index, y), a) && #[trigger] escape.ensures((column_index, y), b)
            ==> a == b
}

/// Computing a column has no freedom beyond the escape function's: where that
/// gives each pixel a single count, two computations of the same column with
/// the same size agree colour for colour.
pub proof fn lemma_compute_column_deterministic<F: Fn(u32, u32) -> u32>(
    escape: &F,
    column_index: u32,
    height: u32,
    col1: (u32, Seq<(u8, u8, u8)>),
    col2: (u32, Seq<(u8, u8, u8)>),
)
    requires
        escape_deterministic(escape, column_index),
        computed_by(escape, column_index, height, col1),
        computed_by(escape, column_index, height, col2),
    ensures
        col1 == col2,
{
    let c1 = choose|counts: Seq<u32>|
        escape_counts(escape, column_index, height, counts) && col1 == column_spec(column_index, counts);
    let c2 = choose|counts: Seq<u32>|
        escape_counts(escape, column_index, height, counts) && col2 == column_spec(column_index, counts);
    assert forall|y: int| 0 <= y < height implies c1[y] == c2[y] by {
        assert(escape.ensures((column_index, y as u32), c1[y]));
        assert(escape.ensures((column_index, y as u32), c2[y]));
    }
    assert(c1 =~= c2);
}

/// Computes column `column_index` of an image of size `spec`: `escape(x, y)`
/// gives the escape count of pixel `(x, y)`, called once per row from the top.
pub fn compute_column<F: Fn(u32, u32) -> u32>(column_index: u32, spec: ImageSpec, escape: &F) -> (col: ColumnResult)
    requires
        forall|y: u32| y < spec.height ==> #[trigger] escape.requires((column_index, y)),
    ensures
        col.pixels@.len() == spec.height,
        computed_by(escape, column_index, spec.height, col@),
{
    let mut counts: Vec<u32> = Vec::new();
    let mut y: u32 = 0;
    while y < spec.height
        invariant
            y <= spec.height,
            counts@.len() == y,
            forall|y: u32| y < spec.height ==> #[trigger] escape.requires((column_index, y)),
            forall|k: int|
                0 <= k < y ==> #[trigger] escape.ensures((column_index, k as u32), counts@[k]),
        decreases spec.height - y,
    {
        let i: u32 = escape(column_index, y);
        counts.push(i);
        y = y + 1;
    }
    let col = column_from_counts(column_index, &counts);
    assert(col.pixels@.len() == col@.1.len());
    assert(escape_counts(escape, column_index, spec.height, counts@));
    col
}

} // verus!
