//! The trail of Newton iterates from one starting point.
use vstd::prelude::*;
use crate::complex::Point;
use crate::polynomial::{newton_step, Polynomial};

verus! {

/// The points that Newton's method visits from a starting point, in order.
pub struct Approximation {
    points: Vec<Point>,
}

impl View for Approximation {
    type V = Seq<Point>;

    closed spec fn view(&self) -> Seq<Point> {
        self.points@
    }
}

impl Approximation {
    /// A trail that starts at `x + y i`, or an empty one unless both parts
    /// are given.
    pub fn new(x: Option<i32>, y: Option<i32>) -> (r: Approximation)
        ensures
            (x is Some && y is Some) ==> r@ == seq![Point { re: x->0, im: y->0 }],
            !(x is Some && y is Some) ==> r@ == Seq::<Point>::empty(),
    {
        let mut points: Vec<Point> = Vec::new();
        if let (Some(re), Some(im)) = (x, y) {
            points.push(Point { re, im });
        }
        Approximation { points }
    }

    /// Appends the next Newton iterate of the last point. Nothing changes for
    /// an empty trail, nor once the last point has reached a root.
    pub fn get_next_point(&mut self, polynom: &Polynomial)
        ensures
            old(self)@.len() == 0 ==> final(self)@ == old(self)@,
            old(self)@.len() > 0 ==> ({
                let step = newton_step(old(self)@.last(), polynom@);
                &&& step.0 is None ==> final(self)@ == old(self)@.push(step.1)
                &&& step.0 is Some ==> final(self)@ == old(self)@
            }),
    {
        let len = self.points.len();
        if len == 0 {
            return;
        }
        let (c, next) = polynom.newton_method_approx(self.points[len - 1]);
        if c.is_none() {
            self.points.push(next);
        }
    }

    pub fn get_points(&self) -> (r: &[Point])
        ensures
            r@ == self@,
    {
        self.points.as_slice()
    }
}

} // verus!
