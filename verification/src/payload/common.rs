//! What both layouts share: the commissioning flow.

use vstd::prelude::*;

verus! {

/// How commissioning proceeds once the code is read.
#[derive(Debug, Clone, Copy, PartialEq, Eq, Structural)]
pub enum CommissioningFlow {
    /// Commissioning proceeds by itself.
    Standard,
    /// The user has to confirm on the device.
    UserIntent,
    /// The vendor's own procedure.
    Custom,
}

impl CommissioningFlow {
    /// The two-bit tag of the flow in the QR layout.
    pub open spec fn tag_spec(self) -> u8 {
        match self {
            CommissioningFlow::Standard => 0,
            CommissioningFlow::UserIntent => 1,
            CommissioningFlow::Custom => 2,
        }
    }

    /// The flow that a tag names; tag 3 names none.
    pub open spec fn from_tag_spec(tag: u8) -> Option<CommissioningFlow> {
        if tag == 0 {
            Some(CommissioningFlow::Standard)
        } else if tag == 1 {
            Some(CommissioningFlow::UserIntent)
        } else if tag == 2 {
            Some(CommissioningFlow::Custom)
        } else {
            None
        }
    }

    /// The two-bit tag of the flow in the QR layout.
    pub fn tag(self) -> (tag: u8)
        ensures
            tag == self.tag_spec(),
            tag <= 2,
            Self::from_tag_spec(tag) == Some(self),
    {
        match self {
            CommissioningFlow::Standard => 0,
            CommissioningFlow::UserIntent => 1,
            CommissioningFlow::Custom => 2,
        }
    }

    /// The flow that a tag names; `None` for a tag that names none.
    pub fn from_tag(tag: u8) -> (flow: Option<CommissioningFlow>)
        ensures
            flow == Self::from_tag_spec(tag),
            flow matches Some(f) ==> f.tag_spec() == tag,
    {
        match tag {
            0 => Some(CommissioningFlow::Standard),
            1 => Some(CommissioningFlow::UserIntent),
            2 => Some(CommissioningFlow::Custom),
            _ => None,
        }
    }
}

} // verus!
