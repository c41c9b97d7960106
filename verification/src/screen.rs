use vstd::prelude::*;

pub mod egui_screen;
pub mod text_render;

verus! {

/// Where a renderer's finished frame of characters goes.
pub trait TextOutputter {
    /// Number of character columns of the output.
    spec fn cols(&self) -> nat;

    /// Number of character rows of the output.
    spec fn rows(&self) -> nat;

    /// The frame that was handed over last.
    spec fn shown(&self) -> Seq<u8>;

    /// What setting up may make of the output: `after` is this output once
    /// it is set up.
    spec fn set_up(&self, after: &Self) -> bool;

    /// Prepares the output; it may learn its size here.
    fn setup(&mut self)
        ensures
            old(self).set_up(final(self)),
    ;

    /// Takes a finished frame. The size of the output stays.
    fn write(&mut self, buf: &[u8])
        ensures
            final(self).cols() == old(self).cols(),
            final(self).rows() == old(self).rows(),
            final(self).shown() == buf@,
    ;

    fn width(&self) -> (w: usize)
        ensures
            w == self.cols(),
    ;

    fn height(&self) -> (h: usize)
        ensures
            h == self.rows(),
    ;
}

/// A pixel of the canvas: row, counted from the top, then column.
#[derive(Clone, Copy, Debug, PartialEq, Eq, Structural)]
pub struct Point(pub i32, pub i32);

/// A copy of the bytes of `buf`.
pub fn bytes_of(buf: &[u8]) -> (r: Vec<u8>)
    ensures
        r@ == buf@,
{
    let mut r: Vec<u8> = Vec::new();
    let mut i: usize = 0;
    while i < buf.len()
        invariant
            0 <= i <= buf@.len(),
            r@ == buf@.take(i as int),
        decreases buf@.len() - i,
    {
        r.push(buf[i]);
        assert(buf@.take(i as int + 1) =~= buf@.take(i as int).push(buf@[i as int]));
        i = i + 1;
    }
    assert(buf@.take(buf@.len() as int) =~= buf@);
    r
}

} // verus!
