//! The output raster, held in an `image` RGB buffer, and the placement of
//! finished columns into it by their index.

use vstd::prelude::*;
use crate::color::Color;
use crate::column::{
    ColumnResult,
    ImageSpec,
    computed_by,
    escape_deterministic,
    lemma_compute_column_deterministic,
};
use crate::partition::{computed_columns, covered, lemma_computed_columns, lemma_one_or_all_workers};

verus! {

/// An RGB pixel buffer of the `image` crate. Verus sees none of its inside:
/// what it holds is `rgb_buffer_pixels`.
#[verifier::external_body]
pub struct RgbBuffer {
    pub image: image::RgbImage,
}

/// What an RGB buffer holds: the colour of each pixel `(x, y)` inside its bounds.
pub uninterp spec fn rgb_buffer_pixels(buf: RgbBuffer) -> Map<(u32, u32), (u8, u8, u8)>;

/// The coordinates of an image of the given size.
pub open spec fn grid(width: u32, height: u32) -> Set<(u32, u32)> {
    Set::new(|p: (u32, u32)| p.0 < width && p.1 < height)
}

/// Relies on `image::ImageBuffer::new`: a buffer of `width * height` pixels, all
/// of them zero. It panics when the buffer length, computed as `3 * width` and
/// then times `height`, overflows `usize` at either step.
#[verifier::external_body]
fn new_rgb_buffer(width: u32, height: u32) -> (buf: RgbBuffer)
    requires
        3 * width as nat <= usize::MAX,
        3 * width as nat * height as nat <= usize::MAX,
    ensures
        rgb_buffer_pixels(buf) == Map::new(
            |p: (u32, u32)| grid(width, height).contains(p),
            |p: (u32, u32)| (0u8, 0u8, 0u8),
        ),
{
    RgbBuffer { image: image::ImageBuffer::new(width, height) }
}

/// Relies on `image::ImageBuffer::put_pixel`: pixel `(x, y)` takes the colour and
/// no other pixel changes. It panics outside the bounds.
#[verifier::external_body]
fn put_rgb_pixel(buf: &mut RgbBuffer, x: u32, y: u32, c: Color)
    requires
        rgb_buffer_pixels(*old(buf)).dom().contains((x, y)),
    ensures
        rgb_buffer_pixels(*final(buf)) == rgb_buffer_pixels(*old(buf)).insert((x, y), c.rgb()),
{
    buf.image.put_pixel(x, y, image::Rgb([c.r, c.g, c.b]))
}

/// Relies on `image::ImageBuffer::get_pixel`: the colour of pixel `(x, y)`. It
/// panics outside the bounds.
#[verifier::external_body]
fn get_rgb_pixel(buf: &RgbBuffer, x: u32, y: u32) -> (c: Color)
    requires
        rgb_buffer_pixels(*buf).dom().contains((x, y)),
    ensures
        c.rgb() == rgb_buffer_pixels(*buf)[(x, y)],
{
    let p = buf.image.get_pixel(x, y);
    Color { r: p.0[0], g: p.0[1], b: p.0[2] }
}

/// A finished column as the raster sees it: its index and its colours.
pub type ColumnView = (u32, Seq<(u8, u8, u8)>);

/// The raster after writing column `col` into it: pixel `(x, y)` takes row `y`
/// of the column where `x` is its index and the column has such a row.
pub open spec fn place_spec(
    m: Map<(u32, u32), (u8, u8, u8)>,
    col: ColumnView,
) -> Map<(u32, u32), (u8, u8, u8)> {
    Map::new(
        |p: (u32, u32)| m.dom().contains(p),
        |p: (u32, u32)|
            if writes(col, p) {
                col.1[p.1 as int]
            } else {
                m[p]
            },
    )
}

/// Whether writing column `col` touches pixel `p`.
pub open spec fn writes(col: ColumnView, p: (u32, u32)) -> bool {
    col.0 == p.0 && p.1 < col.1.len()
}

/// The raster after writing the columns in the order given.
pub open spec fn placed(
    m: Map<(u32, u32), (u8, u8, u8)>,
    cols: Seq<ColumnView>,
) -> Map<(u32, u32), (u8, u8, u8)>
    decreases cols.len(),
{
    if cols.len() == 0 {
        m
    } else {
        place_spec(placed(m, cols.drop_last()), cols.last())
    }
}

/// Whether a column fits a raster of the given size.
pub open spec fn fits(col: ColumnView, width: u32, height: u32) -> bool {
    col.0 < width && col.1.len() <= height
}

/// Two columns with the same index are the same column.
pub open spec fn consistent(cols: Seq<ColumnView>) -> bool {
    forall|i: int, j: int|
        0 <= i < cols.len() && 0 <= j < cols.len() && (#[trigger] cols[i]).0 == (
        #[trigger] cols[j]).0 ==> cols[i] == cols[j]
}

/// The raster that the image is assembled in. Only the collecting side ever
/// touches it.
pub struct OutputRaster {
    width: u32,
    height: u32,
    buffer: RgbBuffer,
}

impl View for OutputRaster {
    type V = Map<(u32, u32), (u8, u8, u8)>;

    closed spec fn view(&self) -> Map<(u32, u32), (u8, u8, u8)> {
        rgb_buffer_pixels(self.buffer)
    }
}

impl OutputRaster {
    /// The size of the raster.
    pub closed spec fn spec_size(&self) -> (u32, u32) {
        (self.width, self.height)
    }

    /// The raster holds a colour for exactly the coordinates inside its size.
    pub open spec fn wf(&self) -> bool {
        self@.dom() == grid(self.spec_size().0, self.spec_size().1)
    }

    /// A black raster of the size of `spec`.
    pub fn new(spec: ImageSpec) -> (raster: Self)
        requires
            3 * spec.width as nat <= usize::MAX,
            3 * spec.width as nat * spec.height as nat <= usize::MAX,
        ensures
            raster.wf(),
            raster.spec_size() == (spec.width, spec.height),
            raster@ == Map::new(
                |p: (u32, u32)| grid(spec.width, spec.height).contains(p),
                |p: (u32, u32)| (0u8, 0u8, 0u8),
            ),
    {
        let buffer = new_rgb_buffer(spec.width, spec.height);
        let raster = OutputRaster { width: spec.width, height: spec.height, buffer };
        assert(raster@.dom() =~= grid(spec.width, spec.height));
        raster
    }

    /// The width of the raster.
    pub fn width(&self) -> (w: u32)
        ensures
            w == self.spec_size().0,
    {
        self.width
    }

    /// The height of the raster.
    pub fn height(&self) -> (h: u32)
        ensures
            h == self.spec_size().1,
    {
        self.height
    }

    /// The colour of pixel `(x, y)`.
    pub fn pixel(&self, x: u32, y: u32) -> (c: Color)
        requires
            self.wf(),
            x < self.spec_size().0,
            y < self.spec_size().1,
        ensures
            c.rgb() == self@[(x, y)],
    {
        get_rgb_pixel(&self.buffer, x, y)
    }

    /// Writes row `y` of `col` into pixel `(col.column_index, y)`, for every row.
    pub fn place_column(&mut self, col: &ColumnResult)
        requires
            old(self).wf(),
            fits(col@, old(self).spec_size().0, old(self).spec_size().1),
        ensures
            final(self).wf(),
            final(self).spec_size() == old(self).spec_size(),
            final(self)@ == place_spec(old(self)@, col@),
    {
        let x: u32 = col.column_index;
        let n: usize = col.pixels.len();
        let mut y: usize = 0;
        while y < n
            invariant
                n == col.pixels@.len(),
                n <= self.height,
                x == col@.0,
                x < self.width,
                y <= n,
                self.spec_size() == old(self).spec_size(),
                self.wf(),
                self@.dom() == old(self)@.dom(),
                forall|p: (u32, u32)|
                    #![trigger self@[p]]
                    old(self)@.dom().contains(p) ==> self@[p] == (if p.0 == x && p.1 < y {
                        col@.1[p.1 as int]
                    } else {
                        old(self)@[p]
                    }),
            decreases n - y,
        {
            proof {
                assert(grid(self.width, self.height).contains((x, y as u32)));
            }
            put_rgb_pixel(&mut self.buffer, x, y as u32, col.pixels[y]);
            assert(self@.dom() =~= old(self)@.dom());
            y = y + 1;
        }
        assert(self@ =~= place_spec(old(self)@, col@));
    }

    /// Writes every column of `cols` into the raster, in the order given.
    pub fn collect(&mut self, cols: &Vec<ColumnResult>)
        requires
            old(self).wf(),
            forall|k: int|
                0 <= k < cols@.len() ==> fits(
                    #[trigger] cols@[k]@,
                    old(self).spec_size().0,
                    old(self).spec_size().1,
                ),
        ensures
            final(self).wf(),
            final(self).spec_size() == old(self).spec_size(),
            final(self)@ == placed(old(self)@, cols@.map_values(|c: ColumnResult| c@)),
    {
        let mut k: usize = 0;
        while k < cols.len()
            invariant
                k <= cols@.len(),
                self.wf(),
                self.spec_size() == old(self).spec_size(),
                forall|j: int|
                    0 <= j < cols@.len() ==> fits(
                        #[trigger] cols@[j]@,
                        old(self).spec_size().0,
                        old(self).spec_size().1,
                    ),
                self@ == placed(old(self)@, cols@.map_values(|c: ColumnResult| c@).take(k as int)),
            decreases cols@.len() - k,
        {
            self.place_column(&cols[k]);
            proof {
                let views = cols@.map_values(|c: ColumnResult| c@);
                assert(views.take(k + 1).drop_last() =~= views.take(k as int));
            }
            k = k + 1;
        }
        proof {
            let views = cols@.map_values(|c: ColumnResult| c@);
            assert(views.take(cols@.len() as int) =~= views);
        }
    }

    /// Hands the finished buffer over, to be encoded and stored.
    pub fn into_buffer(self) -> (buf: RgbBuffer)
        ensures
            rgb_buffer_pixels(buf) == self@,
    {
        self.buffer
    }
}

/// Writing columns leaves the coordinates alone, and where the columns agree on
/// each index, pixel `p` holds row `p.1` of any column that writes it, or its old
/// colour where none does.
pub proof fn lemma_placed_pointwise(m: Map<(u32, u32), (u8, u8, u8)>, cols: Seq<ColumnView>)
    requires
        consistent(cols),
    ensures
        placed(m, cols).dom() == m.dom(),
        forall|p: (u32, u32), k: int|
            m.dom().contains(p) && 0 <= k < cols.len() && #[trigger] writes(cols[k], p)
                ==> #[trigger] placed(m, cols)[p] == cols[k].1[p.1 as int],
        forall|p: (u32, u32)|
            m.dom().contains(p) && (forall|k: int| 0 <= k < cols.len() ==> !#[trigger] writes(cols[k], p))
                ==> #[trigger] placed(m, cols)[p] == m[p],
    decreases cols.len(),
{
    if cols.len() > 0 {
        let front = cols.drop_last();
        assert(consistent(front)) by {
            assert forall|i: int, j: int|
                0 <= i < front.len() && 0 <= j < front.len() && (#[trigger] front[i]).0 == (
                #[trigger] front[j]).0 implies front[i] == front[j] by {
                assert(front[i] == cols[i] && front[j] == cols[j]);
            }
        }
        lemma_placed_pointwise(m, front);
        let last = cols.last();
        assert forall|p: (u32, u32), k: int|
            m.dom().contains(p) && 0 <= k < cols.len() && #[trigger] writes(cols[k], p)
                implies #[trigger] placed(m, cols)[p] == cols[k].1[p.1 as int] by {
            if writes(last, p) {
                assert(cols[cols.len() - 1] == last);
                assert(cols[k] == last);
            } else {
                assert(k < cols.len() - 1);
                assert(front[k] == cols[k]);
            }
        }
        assert forall|p: (u32, u32)|
            m.dom().contains(p) && (forall|k: int| 0 <= k < cols.len() ==> !#[trigger] writes(cols[k], p))
                implies #[trigger] placed(m, cols)[p] == m[p] by {
            assert(!writes(cols[cols.len() - 1], p));
            assert forall|k: int| 0 <= k < front.len() implies !#[trigger] writes(front[k], p) by {
                assert(front[k] == cols[k]);
            }
        }
        assert(placed(m, cols).dom() =~= m.dom());
    }
}

/// Placement goes by column index, not by arrival: two lists that hold the same
/// columns, where columns with the same index are the same, give the same raster
/// whatever their order.
pub proof fn lemma_collect_order_independent(
    m: Map<(u32, u32), (u8, u8, u8)>,
    cols1: Seq<ColumnView>,
    cols2: Seq<ColumnView>,
)
    requires
        consistent(cols1),
        forall|c: ColumnView| cols1.contains(c) <==> cols2.contains(c),
    ensures
        placed(m, cols1) == placed(m, cols2),
{
    assert(consistent(cols2)) by {
        assert forall|i: int, j: int|
            0 <= i < cols2.len() && 0 <= j < cols2.len() && (#[trigger] cols2[i]).0 == (
            #[trigger] cols2[j]).0 implies cols2[i] == cols2[j] by {
            assert(cols2.contains(cols2[i]) && cols2.contains(cols2[j]));
            let a = choose|a: int| 0 <= a < cols1.len() && cols1[a] == cols2[i];
            let b = choose|b: int| 0 <= b < cols1.len() && cols1[b] == cols2[j];
        }
    }
    lemma_placed_pointwise(m, cols1);
    lemma_placed_pointwise(m, cols2);
    assert forall|p: (u32, u32)| #[trigger] m.dom().contains(p) implies placed(m, cols1)[p]
        == placed(m, cols2)[p] by {
        if exists|k: int| 0 <= k < cols1.len() && #[trigger] writes(cols1[k], p) {
            let k = choose|k: int| 0 <= k < cols1.len() && #[trigger] writes(cols1[k], p);
            assert(cols1.contains(cols1[k]));
            let k2 = choose|k2: int| 0 <= k2 < cols2.len() && cols2[k2] == cols1[k];
            assert(writes(cols2[k2], p));
        } else if exists|k: int| 0 <= k < cols2.len() && #[trigger] writes(cols2[k], p) {
            let k = choose|k: int| 0 <= k < cols2.len() && #[trigger] writes(cols2[k], p);
            assert(cols2.contains(cols2[k]));
            let k1 = choose|k1: int| 0 <= k1 < cols1.len() && cols1[k1] == cols2[k];
            assert(writes(cols1[k1], p));
        }
    }
    assert(placed(m, cols1) =~= placed(m, cols2));
}

/// When `threads` divides `width` and the collector has received every column
/// that the workers compute, each once and each `height` rows tall, then every
/// pixel of the `width` by `height` raster is written by exactly one column and
/// holds that column's colour.
pub proof fn lemma_every_pixel_written_once(
    width: u32,
    height: u32,
    threads: u32,
    m: Map<(u32, u32), (u8, u8, u8)>,
    cols: Seq<ColumnView>,
)
    requires
        threads > 0,
        width % threads == 0,
        m.dom() == grid(width, height),
        forall|k: int|
            0 <= k < cols.len() ==> computed_columns(width, threads).contains(
                (#[trigger] cols[k]).0 as nat,
            ) && cols[k].1.len() == height,
        forall|i: int|
            0 <= i < computed_columns(width, threads).len() ==> exists|k: int|
                0 <= k < cols.len() && (#[trigger] cols[k]).0 as nat == #[trigger] computed_columns(
                    width,
                    threads,
                )[i],
        forall|i: int, j: int|
            0 <= i < cols.len() && 0 <= j < cols.len() && i != j ==> (#[trigger] cols[i]).0 != (
            #[trigger] cols[j]).0,
    ensures
        covered(width, threads) == width,
        placed(m, cols).dom() == grid(width, height),
        forall|p: (u32, u32)|
            #[trigger] grid(width, height).contains(p) ==> exists|k: int|
                0 <= k < cols.len() && #[trigger] writes(cols[k], p) && placed(m, cols)[p]
                    == cols[k].1[p.1 as int],
        forall|p: (u32, u32), i: int, j: int|
            grid(width, height).contains(p) && 0 <= i < cols.len() && 0 <= j < cols.len()
                && #[trigger] writes(cols[i], p) && #[trigger] writes(cols[j], p) ==> i == j,
{
    assert(threads * (width / threads) == width) by (nonlinear_arith)
        requires
            threads > 0,
            width % threads == 0,
    ;
    lemma_computed_columns(width, threads);
    lemma_placed_pointwise(m, cols);
    assert forall|p: (u32, u32)| #[trigger] grid(width, height).contains(p) implies exists|k: int|
        0 <= k < cols.len() && #[trigger] writes(cols[k], p) && placed(m, cols)[p]
            == cols[k].1[p.1 as int] by {
        let i = p.0 as int;
        assert(computed_columns(width, threads)[i] == i);
        let k = choose|k: int|
            0 <= k < cols.len() && (#[trigger] cols[k]).0 as nat == computed_columns(
                width,
                threads,
            )[i];
        assert(writes(cols[k], p));
    }
}

/// With an escape function that gives each pixel a single count, one worker
/// computing every column and one worker per column assemble the same raster:
/// `cols_one[k]` and `cols_all[k]` are the `k`-th columns computed in the two
/// runs, placed in the order they were computed.
pub proof fn lemma_one_or_all_workers_same_raster<F: Fn(u32, u32) -> u32>(
    escape: &F,
    width: u32,
    height: u32,
    m: Map<(u32, u32), (u8, u8, u8)>,
    cols_one: Seq<ColumnView>,
    cols_all: Seq<ColumnView>,
)
    requires
        width > 0,
        forall|x: u32| #[trigger] escape_deterministic(escape, x),
        cols_one.len() == width,
        cols_all.len() == width,
        forall|k: int|
            0 <= k < width ==> computed_by(
                escape,
                computed_columns(width, 1)[k] as u32,
                height,
                #[trigger] cols_one[k],
            ),
        forall|k: int|
            0 <= k < width ==> computed_by(
                escape,
                computed_columns(width, width)[k] as u32,
                height,
                #[trigger] cols_all[k],
            ),
    ensures
        placed(m, cols_one) == placed(m, cols_all),
{
    lemma_one_or_all_workers(width);
    assert forall|k: int| 0 <= k < width implies cols_one[k] == cols_all[k] by {
        let x = computed_columns(width, 1)[k] as u32;
        assert(escape_deterministic(escape, x));
        assert(computed_by(escape, x, height, cols_one[k]));
        assert(computed_by(escape, x, height, cols_all[k]));
        lemma_compute_column_deterministic(escape, x, height, cols_one[k], cols_all[k]);
    }
    assert(cols_one =~= cols_all);
}

} // verus!
