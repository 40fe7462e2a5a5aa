//! The devices that a design can be fitted to, and what `galette` knows of
//! their output macrocells.

use vstd::prelude::*;

verus! {

/// A supported device.
#[derive(Debug, Clone, Copy, PartialEq, Eq, Structural)]
pub enum Chip {
    GAL16V8,
    GAL22V10,
}

impl Chip {
    /// The lowest pin that is backed by an output macrocell.
    pub open spec fn spec_min_olmc_pin(self) -> int {
        match self {
            Chip::GAL16V8 => 12,
            Chip::GAL22V10 => 14,
        }
    }

    /// The number of output macrocells, which is the number of rows.
    pub open spec fn spec_num_olmcs(self) -> nat {
        match self {
            Chip::GAL16V8 => 8,
            Chip::GAL22V10 => 10,
        }
    }

    /// The row of the macrocell behind `pin`: pins are backed by macrocells
    /// from the lowest such pin upwards, one row each.
    pub open spec fn spec_pin_to_olmc(self, pin: int) -> Option<usize> {
        if self.spec_min_olmc_pin() <= pin < self.spec_min_olmc_pin() + self.spec_num_olmcs() {
            Some((pin - self.spec_min_olmc_pin()) as usize)
        } else {
            None
        }
    }

    /// The number of product terms that the macrocell of row `olmc` holds.
    pub open spec fn spec_num_rows_for_olmc(self, olmc: int) -> usize {
        match self {
            Chip::GAL16V8 => 8,
            Chip::GAL22V10 => seq![9usize, 11, 13, 15, 17, 17, 15, 13, 11, 9][olmc],
        }
    }

    /// Calls `galette::chips::Chip::num_olmcs`, which counts the pins from
    /// the lowest to the highest that is backed by a macrocell: 12 to 19 on
    /// a GAL16V8, 14 to 23 on a GAL22V10.
    #[verifier::external_body]
    pub(crate) fn num_olmcs(self) -> (r: usize)
        ensures
            r == self.spec_num_olmcs(),
    {
        match self {
            Chip::GAL16V8 => galette::chips::Chip::GAL16V8.num_olmcs(),
            Chip::GAL22V10 => galette::chips::Chip::GAL22V10.num_olmcs(),
        }
    }

    /// Calls `galette::chips::Chip::pin_to_olmc`, which gives the distance
    /// of `pin` from the lowest pin that is backed by a macrocell, and
    /// `None` for a pin outside that range.
    #[verifier::external_body]
    pub(crate) fn pin_to_olmc(self, pin: usize) -> (r: Option<usize>)
        ensures
            r == self.spec_pin_to_olmc(pin as int),
    {
        match self {
            Chip::GAL16V8 => galette::chips::Chip::GAL16V8.pin_to_olmc(pin),
            Chip::GAL22V10 => galette::chips::Chip::GAL22V10.pin_to_olmc(pin),
        }
    }

    /// Calls `galette::chips::Chip::num_rows_for_olmc`, which reads the
    /// size of a macrocell of the GAL22V10 from a table of ten entries and
    /// gives 8 for every macrocell of another device. It does not return
    /// for a row that the table lacks.
    #[verifier::external_body]
    pub(crate) fn num_rows_for_olmc(self, olmc_num: usize) -> (r: usize)
        requires
            olmc_num < self.spec_num_olmcs(),
        ensures
            r == self.spec_num_rows_for_olmc(olmc_num as int),
    {
        match self {
            Chip::GAL16V8 => galette::chips::Chip::GAL16V8.num_rows_for_olmc(olmc_num),
            Chip::GAL22V10 => galette::chips::Chip::GAL22V10.num_rows_for_olmc(olmc_num),
        }
    }
}

} // verus!
