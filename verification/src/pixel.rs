//! Pixels: a place on the surface together with the colour it is to get.
use vstd::prelude::*;

verus! {

/// A pixel to be written. Its coordinates may lie outside any surface: a span
/// is not clipped where it leaves the range of the segment's own points.
#[derive(Debug, PartialEq, Eq)]
pub struct Pixel<C> {
    pub x: i64,
    pub y: i64,
    pub color: C,
}

impl<C: Copy> Clone for Pixel<C> {
    fn clone(&self) -> (copy: Self)
        ensures
            copy == *self,
    {
        *self
    }
}

impl<C: Copy> Copy for Pixel<C> {

}

/// The mathematical model of a pixel: unbounded coordinates and a colour.
pub struct Plot<C> {
    pub x: int,
    pub y: int,
    pub color: C,
}

impl<C> View for Pixel<C> {
    type V = Plot<C>;

    open spec fn view(&self) -> Plot<C> {
        Plot { x: self.x as int, y: self.y as int, color: self.color }
    }
}

impl<C> Plot<C> {
    /// The place of the pixel.
    pub open spec fn position(self) -> (int, int) {
        (self.x, self.y)
    }
}

/// The models of a sequence of pixels, in the same order.
pub open spec fn plots<C>(pixels: Seq<Pixel<C>>) -> Seq<Plot<C>> {
    pixels.map_values(|p: Pixel<C>| p@)
}

/// The model of a sequence with one more pixel is the model of the sequence
/// with one more plot.
pub proof fn lemma_plots_push<C>(pixels: Seq<Pixel<C>>, pixel: Pixel<C>)
    ensures
        plots(pixels.push(pixel)) == plots(pixels).push(pixel@),
{
    assert(plots(pixels.push(pixel)) =~= plots(pixels).push(pixel@));
}

/// Whether one of the plots puts the colour `color` at the place `at`.
pub open spec fn painted<C>(plots: Seq<Plot<C>>, at: (int, int), color: C) -> bool {
    exists|i: int| 0 <= i < plots.len() && #[trigger] plots[i] == (Plot { x: at.0, y: at.1, color })
}

/// Whether one of the plots is at the place `at`.
pub open spec fn plotted<C>(plots: Seq<Plot<C>>, at: (int, int)) -> bool {
    exists|i: int| 0 <= i < plots.len() && (#[trigger] plots[i]).position() == at
}

/// A place is written where it is written in some colour.
pub proof fn lemma_plotted_is_painted<C>(plots: Seq<Plot<C>>, at: (int, int))
    ensures
        plotted(plots, at) <==> exists|color: C| painted(plots, at, color),
{
    if plotted(plots, at) {
        let i: int = choose|i: int| 0 <= i < plots.len() && (#[trigger] plots[i]).position() == at;
        assert(painted(plots, at, plots[i].color));
    }
    if exists|color: C| painted(plots, at, color) {
        let color: C = choose|color: C| painted(plots, at, color);
        let i: int = choose|i: int|
            0 <= i < plots.len() && #[trigger] plots[i] == (Plot { x: at.0, y: at.1, color });
        assert(plots[i].position() == at);
    }
}

/// A colour is put at a place by two runs of plots put together where the
/// first or the second puts it there.
pub proof fn lemma_painted_concat<C>(a: Seq<Plot<C>>, b: Seq<Plot<C>>, at: (int, int), color: C)
    ensures
        painted(a + b, at, color) <==> painted(a, at, color) || painted(b, at, color),
{
    let plot = Plot { x: at.0, y: at.1, color };
    if painted(a + b, at, color) {
        let i: int = choose|i: int| 0 <= i < (a + b).len() && #[trigger] (a + b)[i] == plot;
        if i < a.len() {
            assert(a[i] == plot);
        } else {
            assert(b[i - a.len()] == plot);
        }
    }
    if painted(a, at, color) {
        let i: int = choose|i: int| 0 <= i < a.len() && #[trigger] a[i] == plot;
        assert((a + b)[i] == plot);
    }
    if painted(b, at, color) {
        let i: int = choose|i: int| 0 <= i < b.len() && #[trigger] b[i] == plot;
        assert((a + b)[a.len() + i] == plot);
    }
}

/// A colour is put at a place by a run of plots with one more plot where the
/// run puts it there or that plot does.
pub proof fn lemma_painted_push<C>(a: Seq<Plot<C>>, last: Plot<C>, at: (int, int), color: C)
    ensures
        painted(a.push(last), at, color) <==> painted(a, at, color) || last == (Plot {
            x: at.0,
            y: at.1,
            color,
        }),
{
    let plot = Plot { x: at.0, y: at.1, color };
    let b = a.push(last);
    if painted(b, at, color) {
        let i: int = choose|i: int| 0 <= i < b.len() && #[trigger] b[i] == plot;
        if i < a.len() {
            assert(a[i] == plot);
        }
    }
    if painted(a, at, color) {
        let i: int = choose|i: int| 0 <= i < a.len() && #[trigger] a[i] == plot;
        assert(b[i] == plot);
    }
    if last == plot {
        assert(b[a.len() as int] == plot);
    }
}

} // verus!
