//! A parsed object on hold until its turn comes.

use std::cmp::Ordering;
use vstd::prelude::*;

use crate::export_parser::structured_parse::{Structured, StructuredExportObject};

verus! {

/// A parsed object together with its place in the stream, counted from 0.
/// Two of them are equal, or ordered, as their places are.
#[derive(Debug)]
pub struct WaitObj {
    pub index: usize,
    pub obj: StructuredExportObject,
}

/// A place in the stream and the object that belongs there.
pub struct Arrival {
    pub index: nat,
    pub obj: Structured,
}

impl View for WaitObj {
    type V = Arrival;

    open spec fn view(&self) -> Arrival {
        Arrival { index: self.index as nat, obj: self.obj@ }
    }
}

impl PartialEq for WaitObj {
    fn eq(&self, other: &Self) -> (r: bool) {
        self.index == other.index
    }
}

impl vstd::std_specs::cmp::PartialEqSpecImpl for WaitObj {
    open spec fn obeys_eq_spec() -> bool {
        true
    }

    open spec fn eq_spec(&self, other: &Self) -> bool {
        self.index == other.index
    }
}

impl Eq for WaitObj {

}

impl PartialOrd for WaitObj {
    fn partial_cmp(&self, other: &Self) -> (r: Option<Ordering>) {
        if self.index < other.index {
            Some(Ordering::Less)
        } else if self.index == other.index {
            Some(Ordering::Equal)
        } else {
            Some(Ordering::Greater)
        }
    }
}

impl vstd::std_specs::cmp::PartialOrdSpecImpl for WaitObj {
    open spec fn obeys_partial_cmp_spec() -> bool {
        true
    }

    open spec fn partial_cmp_spec(&self, other: &Self) -> Option<Ordering> {
        if self.index < other.index {
            Some(Ordering::Less)
        } else if self.index == other.index {
            Some(Ordering::Equal)
        } else {
            Some(Ordering::Greater)
        }
    }
}

} // verus!
