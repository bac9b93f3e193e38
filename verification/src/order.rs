//! How two moves compare by their runs.

use vstd::prelude::*;
use core::cmp::Ordering;
use crate::ai::MoveCheck;

verus! {

/// The order of two moves by their counts of runs.  The counts of the
/// longest runs decide: where they differ, fewer is less.  Where only the
/// counts of single cells differ, the first move is the greater whichever
/// has more.
pub open spec fn runs_order(a: Seq<int>, b: Seq<int>) -> Ordering {
    if a[3] != b[3] {
        if a[3] < b[3] {
            Ordering::Less
        } else {
            Ordering::Greater
        }
    } else if a[2] != b[2] {
        if a[2] < b[2] {
            Ordering::Less
        } else {
            Ordering::Greater
        }
    } else if a[1] != b[1] {
        if a[1] < b[1] {
            Ordering::Less
        } else {
            Ordering::Greater
        }
    } else if a[0] != b[0] {
        Ordering::Greater
    } else {
        Ordering::Equal
    }
}

impl PartialEq for MoveCheck {
    /// Two moves are equal where their counts of runs are.
    fn eq(&self, other: &Self) -> (r: bool) {
        let a = self.get_runs();
        let b = other.get_runs();
        proof {
            assert(a@[0] == self.runs()[0] && a@[1] == self.runs()[1] && a@[2] == self.runs()[2]
                && a@[3] == self.runs()[3]);
            assert(b@[0] == other.runs()[0] && b@[1] == other.runs()[1] && b@[2]
                == other.runs()[2] && b@[3] == other.runs()[3]);
            if a@[0] == b@[0] && a@[1] == b@[1] && a@[2] == b@[2] && a@[3] == b@[3] {
                assert(self.runs() =~= other.runs());
            }
        }
        a[0] == b[0] && a[1] == b[1] && a[2] == b[2] && a[3] == b[3]
    }
}

impl vstd::std_specs::cmp::PartialEqSpecImpl for MoveCheck {
    open spec fn obeys_eq_spec() -> bool {
        true
    }

    open spec fn eq_spec(&self, other: &Self) -> bool {
        self.runs() == other.runs()
    }
}

impl Eq for MoveCheck {

}

impl PartialOrd for MoveCheck {
    /// Compares two moves by their counts of runs, those of the longest
    /// runs first.
    fn partial_cmp(&self, other: &Self) -> (r: Option<Ordering>) {
        let a = self.get_runs();
        let b = other.get_runs();
        if a[3] != b[3] {
            if a[3] < b[3] {
                Some(Ordering::Less)
            } else {
                Some(Ordering::Greater)
            }
        } else if a[2] != b[2] {
            if a[2] < b[2] {
                Some(Ordering::Less)
            } else {
                Some(Ordering::Greater)
            }
        } else if a[1] != b[1] {
            if a[1] < b[1] {
                Some(Ordering::Less)
            } else {
                Some(Ordering::Greater)
            }
        } else if a[0] != b[0] {
            Some(Ordering::Greater)
        } else {
            Some(Ordering::Equal)
        }
    }
}

impl vstd::std_specs::cmp::PartialOrdSpecImpl for MoveCheck {
    open spec fn obeys_partial_cmp_spec() -> bool {
        true
    }

    open spec fn partial_cmp_spec(&self, other: &Self) -> Option<Ordering> {
        Some(runs_order(self.runs(), other.runs()))
    }
}

} // verus!
