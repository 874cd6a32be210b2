//! A pixel buffer to draw on: a grid of colours with a fixed width and
//! height. Writes that fall outside the grid are ignored.
use vstd::prelude::*;
use crate::pixel::{painted, plots, plotted, Pixel, Plot};

verus! {

/// A grid of `width` by `height` colours, addressed by a column `x` and a row
/// `y`, both counted from zero.
pub struct Canvas<C> {
    width: usize,
    height: usize,
    cells: Vec<C>,
}

/// The surface after one write: the colour of the plot at its place, where
/// the surface has that place, and everything else as it was.
pub open spec fn paint<C>(surface: Map<(int, int), C>, plot: Plot<C>) -> Map<(int, int), C> {
    if surface.dom().contains(plot.position()) {
        surface.insert(plot.position(), plot.color)
    } else {
        surface
    }
}

/// The surface after a run of writes, the first of them made first.
pub open spec fn paint_all<C>(surface: Map<(int, int), C>, plots: Seq<Plot<C>>) -> Map<
    (int, int),
    C,
>
    decreases plots.len(),
{
    if plots.len() == 0 {
        surface
    } else {
        paint(paint_all(surface, plots.drop_last()), plots.last())
    }
}

/// A surface of `width` by `height` places that all have the colour `fill`.
pub open spec fn blank<C>(width: int, height: int, fill: C) -> Map<(int, int), C> {
    Map::new(|at: (int, int)| 0 <= at.0 < width && 0 <= at.1 < height, |at: (int, int)| fill)
}

proof fn lemma_cell_index(width: int, height: int, x: int, y: int)
    by (nonlinear_arith)
    requires
        0 <= x < width,
        0 <= y < height,
    ensures
        0 <= y * width + x < width * height,
{
}

proof fn lemma_cell_index_distinct(width: int, x: int, y: int, u: int, v: int)
    by (nonlinear_arith)
    requires
        0 <= x < width,
        0 <= u < width,
        y * width + x == v * width + u,
    ensures
        x == u,
        y == v,
{
}

/// Writing changes no place into being or out of it: the surface keeps its
/// places.
pub proof fn lemma_paint_keeps_places<C>(surface: Map<(int, int), C>, plots: Seq<Plot<C>>)
    ensures
        paint_all(surface, plots).dom() == surface.dom(),
    decreases plots.len(),
{
    if plots.len() > 0 {
        lemma_paint_keeps_places(surface, plots.drop_last());
        assert(paint_all(surface, plots).dom() =~= surface.dom());
    }
}

/// A place at which nothing is written keeps its colour.
pub proof fn lemma_paint_leaves_rest<C>(
    surface: Map<(int, int), C>,
    plots: Seq<Plot<C>>,
    at: (int, int),
)
    requires
        !plotted(plots, at),
    ensures
        paint_all(surface, plots)[at] == surface[at],
    decreases plots.len(),
{
    if plots.len() > 0 {
        let earlier = plots.drop_last();
        assert(plots.last() == plots[plots.len() - 1]);
        assert forall|i: int| 0 <= i < earlier.len() implies (#[trigger] earlier[i]).position()
            != at by {
            assert(earlier[i] == plots[i]);
        }
        lemma_paint_leaves_rest(surface, earlier, at);
    }
}

/// Writing two runs of plots, one after the other, is writing the first and
/// then the second.
pub proof fn lemma_paint_in_turn<C>(surface: Map<(int, int), C>, a: Seq<Plot<C>>, b: Seq<Plot<C>>)
    ensures
        paint_all(surface, a + b) == paint_all(paint_all(surface, a), b),
    decreases b.len(),
{
    if b.len() == 0 {
        assert(a + b =~= a);
    } else {
        lemma_paint_in_turn(surface, a, b.drop_last());
        assert((a + b).drop_last() =~= a + b.drop_last());
        assert((a + b).last() == b.last());
    }
}

/// A place of the surface at which one colour is written, and no other, has
/// that colour afterwards.
pub proof fn lemma_paint_sets_color<C>(
    surface: Map<(int, int), C>,
    plots: Seq<Plot<C>>,
    at: (int, int),
    color: C,
)
    requires
        surface.dom().contains(at),
        plotted(plots, at),
        forall|other: C| painted(plots, at, other) ==> other == color,
    ensures
        paint_all(surface, plots)[at] == color,
{
    lemma_paint_shows_a_plot(surface, plots, at);
}

/// A place of the surface at which something is written has afterwards a
/// colour that was written there.
pub proof fn lemma_paint_shows_a_plot<C>(
    surface: Map<(int, int), C>,
    plots: Seq<Plot<C>>,
    at: (int, int),
)
    requires
        surface.dom().contains(at),
        plotted(plots, at),
    ensures
        painted(plots, at, paint_all(surface, plots)[at]),
    decreases plots.len(),
{
    let earlier = plots.drop_last();
    let last = plots.last();
    assert(last == plots[plots.len() - 1]);
    lemma_paint_keeps_places(surface, earlier);
    if last.position() != at {
        let i: int = choose|i: int| 0 <= i < plots.len() && (#[trigger] plots[i]).position() == at;
        assert(earlier[i].position() == at);
        lemma_paint_shows_a_plot(surface, earlier, at);
        let shown = paint_all(surface, earlier)[at];
        let n: int = choose|n: int|
            0 <= n < earlier.len() && #[trigger] earlier[n] == (Plot {
                x: at.0,
                y: at.1,
                color: shown,
            });
        assert(plots[n] == earlier[n]);
    }
}

impl<C> View for Canvas<C> {
    type V = Map<(int, int), C>;

    /// The colour at each place of the grid: at each column from zero up to
    /// the number of columns and each row from zero up to the number of
    /// rows.
    open spec fn view(&self) -> Map<(int, int), C> {
        Map::new(
            |at: (int, int)| 0 <= at.0 < self.columns() && 0 <= at.1 < self.rows(),
            |at: (int, int)| self.color_at(at),
        )
    }
}

impl<C> Canvas<C> {
    /// A canvas holds one colour for each place of its grid.
    #[verifier::type_invariant]
    spec fn well_formed(self) -> bool {
        self.cells@.len() == self.width * self.height
    }

    /// The number of columns.
    pub closed spec fn columns(&self) -> int {
        self.width as int
    }

    /// The number of rows.
    pub closed spec fn rows(&self) -> int {
        self.height as int
    }

    /// The colour that the canvas holds for the place `at`.
    pub closed spec fn color_at(&self, at: (int, int)) -> C {
        self.cells@[at.1 * self.width + at.0]
    }
}

impl<C: Copy> Canvas<C> {
    /// A canvas of `width` by `height` pixels, all of the colour `fill`, or
    /// nothing where the number of its pixels does not fit the machine.
    pub fn new(width: usize, height: usize, fill: C) -> (canvas: Option<Canvas<C>>)
        ensures
            canvas.is_some() <==> width * height <= usize::MAX,
            canvas matches Some(c) ==> c.columns() == width && c.rows() == height && c@ == blank(
                width as int,
                height as int,
                fill,
            ),
    {
        let count: usize = match width.checked_mul(height) {
            Some(count) => count,
            None => {
                return None;
            },
        };
        let mut cells: Vec<C> = Vec::new();
        let mut i: usize = 0;
        while i < count
            invariant
                i <= count,
                cells@.len() == i,
                forall|n: int| 0 <= n < i ==> cells@[n] == fill,
            decreases count - i,
        {
            cells.push(fill);
            i = i + 1;
        }
        let canvas = Canvas { width, height, cells };
        proof {
            assert forall|at: (int, int)| 0 <= at.0 < width && 0 <= at.1 < height implies canvas.cells@[at.1
                * width + at.0] == fill by {
                lemma_cell_index(width as int, height as int, at.0, at.1);
            }
            assert(canvas@ =~= blank(width as int, height as int, fill));
        }
        Some(canvas)
    }

    /// The number of columns of the grid.
    pub fn width(&self) -> (width: usize)
        ensures
            width == self.columns(),
    {
        self.width
    }

    /// The number of rows of the grid.
    pub fn height(&self) -> (height: usize)
        ensures
            height == self.rows(),
    {
        self.height
    }

    /// The colour at column `x` and row `y`, or nothing where the grid has
    /// no such place.
    pub fn pixel(&self, x: i64, y: i64) -> (color: Option<C>)
        ensures
            color.is_some() <==> self@.dom().contains((x as int, y as int)),
            color matches Some(c) ==> c == self@[(x as int, y as int)],
    {
        proof {
            use_type_invariant(self);
        }
        if x < 0 || y < 0 {
            return None;
        }
        if x as u64 >= self.width as u64 || y as u64 >= self.height as u64 {
            return None;
        }
        let column: usize = x as usize;
        let row: usize = y as usize;
        let count: usize = self.cells.len();
        proof {
            lemma_cell_index(self.width as int, self.height as int, column as int, row as int);
            assert(0 <= row * self.width) by (nonlinear_arith);
            assert(row * self.width + column < count);
        }
        Some(self.cells[row * self.width + column])
    }

    /// Writes `color` at column `x` and row `y`. A place outside the grid is
    /// left out: nothing is written and nothing fails.
    pub fn set_pixel(&mut self, x: i64, y: i64, color: C)
        ensures
            final(self)@ == paint(old(self)@, Plot { x: x as int, y: y as int, color }),
            final(self).columns() == old(self).columns(),
            final(self).rows() == old(self).rows(),
    {
        proof {
            use_type_invariant(&*self);
        }
        if x < 0 || y < 0 {
            return ;
        }
        if x as u64 >= self.width as u64 || y as u64 >= self.height as u64 {
            return ;
        }
        let column: usize = x as usize;
        let row: usize = y as usize;
        let count: usize = self.cells.len();
        proof {
            lemma_cell_index(self.width as int, self.height as int, column as int, row as int);
            assert(0 <= row * self.width) by (nonlinear_arith);
            assert(row * self.width + column < count);
        }
        let index: usize = row * self.width + column;
        self.cells[index] = color;
        proof {
            let before = old(self)@;
            let after = self@;
            assert forall|at: (int, int)| before.dom().contains(at) && at != (x as int, y as int)
                implies after[at] == before[at] by {
                lemma_cell_index(self.width as int, self.height as int, at.0, at.1);
                if at.1 * self.width + at.0 == index {
                    lemma_cell_index_distinct(self.width as int, at.0, at.1, x as int, y as int);
                }
            }
            assert(after =~= before.insert((x as int, y as int), color));
        }
    }

    /// Writes a run of pixels, the first of them first. Those that fall
    /// outside the grid are left out.
    pub fn draw(&mut self, pixels: &Vec<Pixel<C>>)
        ensures
            final(self)@ == paint_all(old(self)@, plots(pixels@)),
            final(self).columns() == old(self).columns(),
            final(self).rows() == old(self).rows(),
    {
        let ghost all = plots(pixels@);
        let mut i: usize = 0;
        while i < pixels.len()
            invariant
                i <= pixels.len(),
                all == plots(pixels@),
                self@ == paint_all(old(self)@, all.take(i as int)),
                self.columns() == old(self).columns(),
                self.rows() == old(self).rows(),
            decreases pixels.len() - i,
        {
            let pixel = pixels[i];
            self.set_pixel(pixel.x, pixel.y, pixel.color);
            proof {
                assert(all.take(i + 1).drop_last() =~= all.take(i as int));
                assert(all.take(i + 1).last() == pixel@);
            }
            i = i + 1;
        }
        proof {
            assert(all.take(i as int) =~= all);
        }
    }
}

} // verus!
