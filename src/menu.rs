use vstd::prelude::*;

verus! {

/// Selection state of a vertical menu of `count` options that wraps around.
pub struct TitleMenu {
    selected: usize,
    count: usize,
}

impl TitleMenu {
    pub closed spec fn selection(&self) -> nat {
        self.selected as nat
    }

    pub closed spec fn size(&self) -> nat {
        self.count as nat
    }

    /// A menu of `count` options with the first one selected.
    pub fn new(count: usize) -> (r: TitleMenu)
        requires
            count > 0,
        ensures
            r.selection() == 0,
            r.size() == count,
    {
        TitleMenu { selected: 0, count }
    }

    /// Index of the selected option.
    pub fn selected(&self) -> (r: usize)
        ensures
            r == self.selection(),
    {
        self.selected
    }

    /// Moves the selection one option down, from the last back to the first.
    pub fn select_next(&mut self)
        requires
            old(self).selection() < old(self).size(),
        ensures
            final(self).size() == old(self).size(),
            final(self).selection() == if old(self).selection() + 1 == old(self).size() {
                0
            } else {
                old(self).selection() + 1
            },
    {
        if self.selected + 1 >= self.count {
            self.selected = 0;
        } else {
            self.selected = self.selected + 1;
        }
    }

    /// Moves the selection one option up, from the first back to the last.
    pub fn select_previous(&mut self)
        requires
            old(self).selection() < old(self).size(),
        ensures
            final(self).size() == old(self).size(),
            final(self).selection() == if old(self).selection() == 0 {
                (old(self).size() - 1) as nat
            } else {
                (old(self).selection() - 1) as nat
            },
    {
        if self.selected == 0 {
            self.selected = self.count - 1;
        } else {
            self.selected = self.selected - 1;
        }
    }
}

} // verus!
