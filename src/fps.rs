use vstd::prelude::*;

verus! {

/// The most recent frame-rate samples, oldest first, in a window of fixed length.
pub struct FpsHistory {
    samples: Vec<i32>,
}

impl FpsHistory {
    pub closed spec fn view_samples(&self) -> Seq<i32> {
        self.samples@
    }

    /// A window of `len` samples, all zero.
    pub fn new(len: usize) -> (r: FpsHistory)
        ensures
            r.view_samples() == Seq::new(len as nat, |i: int| 0i32),
    {
        let mut samples: Vec<i32> = Vec::new();
        let mut i: usize = 0;
        while i < len
            invariant
                i <= len,
                samples@ == Seq::new(i as nat, |j: int| 0i32),
            decreases len - i,
        {
            samples.push(0);
            i = i + 1;
            assert(samples@ =~= Seq::new(i as nat, |j: int| 0i32));
        }
        FpsHistory { samples }
    }

    /// Drops the oldest sample and appends `fps` as the newest.
    pub fn record(&mut self, fps: i32)
        ensures
            old(self).view_samples().len() == 0 ==> final(self).view_samples() == old(
                self,
            ).view_samples(),
            old(self).view_samples().len() > 0 ==> final(self).view_samples() == old(
                self,
            ).view_samples().drop_first().push(fps),
    {
        let n = self.samples.len();
        if n == 0 {
            return ;
        }
        let mut i: usize = 0;
        while i + 1 < n
            invariant
                n == self.samples@.len(),
                n > 0,
                i < n,
                forall|j: int| 0 <= j < i ==> self.samples@[j] == old(self).samples@[j + 1],
                forall|j: int| i <= j < n ==> self.samples@[j] == old(self).samples@[j],
            decreases n - i,
        {
            let next = self.samples[i + 1];
            self.samples.set(i, next);
            i = i + 1;
        }
        self.samples.set(n - 1, fps);
        assert(self.samples@ =~= old(self).samples@.drop_first().push(fps));
    }

    /// Number of samples kept.
    pub fn len(&self) -> (r: usize)
        ensures
            r == self.view_samples().len(),
    {
        self.samples.len()
    }

    /// The `i`-th sample, oldest first.
    pub fn sample(&self, i: usize) -> (r: i32)
        requires
            i < self.view_samples().len(),
        ensures
            r == self.view_samples()[i as int],
    {
        self.samples[i]
    }

    /// The newest sample, or 0 when the window is empty.
    pub fn latest(&self) -> (r: i32)
        ensures
            self.view_samples().len() == 0 ==> r == 0,
            self.view_samples().len() > 0 ==> r == self.view_samples().last(),
    {
        if self.samples.len() == 0 {
            0
        } else {
            self.samples[self.samples.len() - 1]
        }
    }
}

} // verus!
