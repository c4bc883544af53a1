//! The metadata record that accompanies one rendered board image.

use crate::geom::CellBox;
use vstd::prelude::*;

verus! {

/// Which row, column, box and cell of a rendered board carry a highlight
/// overlay.
#[derive(Clone, Copy, Debug)]
pub struct Highlight {
    pub row: usize,
    pub col: usize,
    pub sbox: (usize, usize),
    pub cell: (usize, usize),
}

/// One line of the dataset's metadata log: the image it describes, the cell
/// labels and pixel boxes, the board side, the seed that produced it, and
/// an optional highlight.
pub struct JsonRecord {
    pub schema: &'static str,
    pub image: String,
    pub labels: Vec<u8>,
    pub boxes: Vec<CellBox>,
    pub dim: u8,
    pub seed: u64,
    pub highlight: Option<Highlight>,
}

impl JsonRecord {
    /// Assembles a record; the schema tag is fixed.
    pub fn new(
        image: String,
        labels: Vec<u8>,
        boxes: Vec<CellBox>,
        dim: u8,
        seed: u64,
        highlight: Option<Highlight>,
    ) -> (rec: JsonRecord)
        ensures
            rec.schema@ == "v1"@,
            rec.image@ == image@,
            rec.labels@ == labels@,
            rec.boxes@ == boxes@,
            rec.dim == dim,
            rec.seed == seed,
            rec.highlight == highlight,
    {
        JsonRecord { schema: "v1", image, labels, boxes, dim, seed, highlight }
    }
}

} // verus!
