use vstd::prelude::*;

verus! {

/// Growing and shrinking a grid by one column or one row at a time.
pub trait Scale: Sized {
    spec fn scale_wf(&self) -> bool;

    spec fn scale_width(&self) -> int;

    spec fn scale_height(&self) -> int;

    fn width(&self) -> (r: usize)
        requires
            self.scale_wf(),
        ensures
            r == self.scale_width(),
    ;

    fn height(&self) -> (r: usize)
        requires
            self.scale_wf(),
        ensures
            r == self.scale_height(),
    ;

    /// Adds a vacant column on the right.
    fn increment_width(&mut self)
        requires
            old(self).scale_wf(),
            (old(self).scale_width() + 1) * old(self).scale_height() <= usize::MAX,
        ensures
            final(self).scale_wf(),
            final(self).scale_width() == old(self).scale_width() + 1,
            final(self).scale_height() == old(self).scale_height(),
    ;

    /// Removes the rightmost column; at least one column stays.
    fn decrement_width(&mut self)
        requires
            old(self).scale_wf(),
            old(self).scale_width() > 1,
        ensures
            final(self).scale_wf(),
            final(self).scale_width() == old(self).scale_width() - 1,
            final(self).scale_height() == old(self).scale_height(),
    ;

    /// Adds a vacant row at the bottom.
    fn increment_height(&mut self)
        requires
            old(self).scale_wf(),
            old(self).scale_width() * (old(self).scale_height() + 1) <= usize::MAX,
        ensures
            final(self).scale_wf(),
            final(self).scale_width() == old(self).scale_width(),
            final(self).scale_height() == old(self).scale_height() + 1,
    ;

    /// Removes the bottom row; at least one row stays.
    fn decrement_height(&mut self)
        requires
            old(self).scale_wf(),
            old(self).scale_height() > 1,
        ensures
            final(self).scale_wf(),
            final(self).scale_width() == old(self).scale_width(),
            final(self).scale_height() == old(self).scale_height() - 1,
    ;
}

} // verus!
