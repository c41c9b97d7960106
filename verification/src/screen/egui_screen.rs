use crate::screen::{bytes_of, TextOutputter};
use vstd::prelude::*;

verus! {

/// An output of fixed size that keeps the last frame for a window to show.
pub struct EguiTextOutput {
    pub height: usize,
    pub width: usize,
    pub frame: Vec<u8>,
}

impl EguiTextOutput {
    pub fn new(height: usize, width: usize, frame: Vec<u8>) -> (r: Self)
        ensures
            r.height == height,
            r.width == width,
            r.frame@ == frame@,
    {
        EguiTextOutput { height: height, width: width, frame: frame }
    }
}

impl TextOutputter for EguiTextOutput {
    open spec fn cols(&self) -> nat {
        self.width as nat
    }

    open spec fn rows(&self) -> nat {
        self.height as nat
    }

    open spec fn shown(&self) -> Seq<u8> {
        self.frame@
    }

    /// Makes room for one frame where that is possible; nothing that can be
    /// seen changes.
    fn setup(&mut self)
        ensures
            final(self).height == old(self).height,
            final(self).width == old(self).width,
            final(self).frame@ == old(self).frame@,
    {
        match self.width.checked_mul(self.height) {
            Some(cells) => {
                let _ = self.frame.try_reserve(cells);
            },
            None => {},
        }
    }

    /// Setting up leaves the size and the frame as they are.
    open spec fn set_up(&self, after: &Self) -> bool {
        &&& after.height == self.height
        &&& after.width == self.width
        &&& after.frame@ == self.frame@
    }

    fn write(&mut self, buf: &[u8]) {
        self.frame = bytes_of(buf);
    }

    fn width(&self) -> (w: usize) {
        self.width
    }

    fn height(&self) -> (h: usize) {
        self.height
    }
}

} // verus!
