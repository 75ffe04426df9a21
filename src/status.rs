use vstd::prelude::*;

verus! {

/// The flag set when a flow has been refused.
pub const BLOCKED: u32 = 1;

/// The flag set once the first payload of a flow has been inspected.
pub const POW_SENT: u32 = 2;

/// The progress of a flow: a set of the flags `BLOCKED` and `POW_SENT`.
#[derive(Clone, Copy, Debug, PartialEq, Eq, Hash)]
pub struct Status {
    pub bits: u32,
}

/// Whether the flag `BLOCKED` is set.
pub open spec fn is_blocked(s: Status) -> bool {
    s.bits & BLOCKED == BLOCKED
}

/// Whether the flag `POW_SENT` is set.
pub open spec fn is_pow_sent(s: Status) -> bool {
    s.bits & POW_SENT == POW_SENT
}

/// The status with the flags of `b` added.
pub open spec fn with_flags(s: Status, b: u32) -> Status {
    Status { bits: s.bits | b }
}

pub proof fn lemma_flags(x: u32)
    ensures
        (x | BLOCKED) & BLOCKED == BLOCKED,
        (x | POW_SENT) & POW_SENT == POW_SENT,
        ((x | BLOCKED) & POW_SENT == POW_SENT) == (x & POW_SENT == POW_SENT),
        ((x | POW_SENT) & BLOCKED == BLOCKED) == (x & BLOCKED == BLOCKED),
        0u32 & BLOCKED != BLOCKED,
        0u32 & POW_SENT != POW_SENT,
{
    assert((x | 1) & 1 == 1) by (bit_vector);
    assert((x | 2) & 2 == 2) by (bit_vector);
    assert(((x | 1) & 2 == 2) == (x & 2 == 2)) by (bit_vector);
    assert(((x | 2) & 1 == 1) == (x & 1 == 1)) by (bit_vector);
    assert(0u32 & 1 != 1) by (bit_vector);
    assert(0u32 & 2 != 2) by (bit_vector);
}

impl Status {
    /// No flag set.
    pub fn empty() -> (r: Status)
        ensures
            r.bits == 0,
            !is_blocked(r),
            !is_pow_sent(r),
    {
        proof {
            lemma_flags(0);
        }
        Status { bits: 0 }
    }

    /// The raw flags.
    pub fn bits(&self) -> (r: u32)
        ensures
            r == self.bits,
    {
        self.bits
    }

    /// The status with these flags, if no unknown flag is among them.
    pub fn from_bits(bits: u32) -> (r: Option<Status>)
        ensures
            r == (if bits & !(BLOCKED | POW_SENT) == 0 {
                Some(Status { bits })
            } else {
                None
            }),
    {
        if bits & !(BLOCKED | POW_SENT) == 0 {
            Some(Status { bits })
        } else {
            None
        }
    }

    /// The status with the known flags among these, the others dropped.
    pub fn from_bits_truncate(bits: u32) -> (r: Status)
        ensures
            r.bits == bits & (BLOCKED | POW_SENT),
    {
        Status { bits: bits & (BLOCKED | POW_SENT) }
    }

    /// Whether every flag of `other` is set here.
    pub fn contains(&self, other: Status) -> (r: bool)
        ensures
            r == (self.bits & other.bits == other.bits),
    {
        self.bits & other.bits == other.bits
    }

    /// Sets the flags of `other`.
    pub fn insert(&mut self, other: Status)
        ensures
            final(self).bits == old(self).bits | other.bits,
    {
        self.bits = self.bits | other.bits;
    }

    /// Whether `BLOCKED` is set.
    pub fn blocked(&self) -> (r: bool)
        ensures
            r == is_blocked(*self),
    {
        self.bits & BLOCKED == BLOCKED
    }

    /// Whether `POW_SENT` is set.
    pub fn pow_sent(&self) -> (r: bool)
        ensures
            r == is_pow_sent(*self),
    {
        self.bits & POW_SENT == POW_SENT
    }

    /// Sets `BLOCKED`.
    pub fn set_blocked(&mut self)
        ensures
            *final(self) == with_flags(*old(self), BLOCKED),
            is_blocked(*final(self)),
            is_pow_sent(*final(self)) == is_pow_sent(*old(self)),
    {
        proof {
            lemma_flags(self.bits);
        }
        self.bits = self.bits | BLOCKED;
    }

    /// Sets `POW_SENT`.
    pub fn set_pow_sent(&mut self)
        ensures
            *final(self) == with_flags(*old(self), POW_SENT),
            is_pow_sent(*final(self)),
            is_blocked(*final(self)) == is_blocked(*old(self)),
    {
        proof {
            lemma_flags(self.bits);
        }
        self.bits = self.bits | POW_SENT;
    }
}

} // verus!
