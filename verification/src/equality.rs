//! Equality of colours: two colours are equal when they give the same
//! pixel, so colours that differ by less than a step of a byte compare
//! equal.

use vstd::prelude::*;
use vstd::std_specs::cmp::PartialEqSpecImpl;
use crate::color::Color;

verus! {

impl PartialEq for Color {
    fn eq(&self, other: &Color) -> (r: bool) {
        let p = self.as_pixel();
        let q = other.as_pixel();
        proof {
            if p[0] == q[0] && p[1] == q[1] && p[2] == q[2] && p[3] == q[3] {
                assert(p@ =~= q@);
            }
        }
        p[0] == q[0] && p[1] == q[1] && p[2] == q[2] && p[3] == q[3]
    }
}

impl PartialEqSpecImpl for Color {
    open spec fn obeys_eq_spec() -> bool {
        true
    }

    open spec fn eq_spec(&self, other: &Color) -> bool {
        self.pixel() == other.pixel()
    }
}

} // verus!
