//! The anchors of a daily curve: one for each hour of the day, and one for
//! midnight again, so that the day closes on itself.

use vstd::prelude::*;

verus! {

/// The number of anchors: the hours from 0 to 24.
pub const ANCHORS: usize = 25;

/// The anchors after the one at hour `h` was set. The two midnights are kept
/// the same; an hour out of range changes nothing.
pub open spec fn anchored_at<P>(anchors: Seq<P>, h: nat, p: P) -> Seq<P> {
    if h > 24 {
        anchors
    } else if h == 0 || h == 24 {
        anchors.update(0, p).update(24, p)
    } else {
        anchors.update(h as int, p)
    }
}

/// One point for each hour of a day, over any type of points.
#[derive(Debug)]
pub struct DayAnchors<P> {
    anchors: Vec<P>,
}

impl<P> View for DayAnchors<P> {
    type V = Seq<P>;

    closed spec fn view(&self) -> Seq<P> {
        self.anchors@
    }
}

impl<P: Copy> DayAnchors<P> {
    /// Every hour has its anchor, and the day closes on itself.
    pub open spec fn wf(&self) -> bool {
        self@.len() == ANCHORS && self@[0] == self@[24]
    }

    /// The anchors of the hours from 0 to 23; `None` where there are more or
    /// fewer.
    pub fn new(hours: Vec<P>) -> (r: Option<Self>)
        ensures
            r is Some <==> hours@.len() == 24,
            r matches Some(a) ==> a.wf() && a@ == hours@.push(hours@[0]),
    {
        if hours.len() != 24 {
            return None;
        }
        let mut anchors = hours;
        let first = anchors[0];
        anchors.push(first);
        Some(DayAnchors { anchors })
    }

    /// The anchors that an hour lies between: its own and the next. Past the
    /// last hour these are the last two.
    pub fn around(&self, hour: usize) -> (r: (P, P))
        requires
            self.wf(),
        ensures
            ({
                let lo = if hour < 23 {
                    hour as int
                } else {
                    23
                };
                r == (self@[lo], self@[lo + 1])
            }),
    {
        let lo: usize = if hour < 23 {
            hour
        } else {
            23
        };
        (self.anchors[lo], self.anchors[lo + 1])
    }

    /// The anchor at hour `h`, if there is one.
    pub fn at(&self, h: usize) -> (r: Option<P>)
        requires
            self.wf(),
        ensures
            r == if h <= 24 {
                Some(self@[h as int])
            } else {
                None
            },
    {
        if h <= 24 {
            Some(self.anchors[h])
        } else {
            None
        }
    }

    /// Set the anchor at hour `h`. The two midnights are kept the same; an
    /// hour out of range changes nothing.
    pub fn set(&mut self, h: usize, p: P)
        requires
            old(self).wf(),
        ensures
            final(self).wf(),
            final(self)@ == anchored_at(old(self)@, h as nat, p),
    {
        if h > 24 {
            return;
        }
        if h == 0 || h == 24 {
            self.anchors.set(0, p);
            self.anchors.set(24, p);
        } else {
            self.anchors.set(h, p);
        }
    }
}

} // verus!
