use vstd::prelude::*;

verus! {

/// Flag bit of an unmapped record.
pub const FLAG_UNMAPPED: u16 = 0x4;

/// Flag bit of a secondary alignment.
pub const FLAG_SECONDARY: u16 = 0x100;

/// Flag bit of a supplementary alignment.
pub const FLAG_SUPPLEMENTARY: u16 = 0x800;

/// Which records are admitted: unmapped ones only with `include_unaligned`,
/// and only reads longer than `min_length` when it is positive.
#[derive(Clone, Copy, Debug, PartialEq, Eq)]
pub struct FilterPolicy {
    pub include_unaligned: bool,
    pub min_length: usize,
}

/// Whether `flags` has the bit `bit` set.
pub open spec fn has_flag(flags: u16, bit: u16) -> bool {
    flags & bit != 0
}

/// Whether the record is a secondary alignment.
pub fn is_secondary(flags: u16) -> (r: bool)
    ensures
        r == has_flag(flags, FLAG_SECONDARY),
{
    flags & FLAG_SECONDARY != 0
}

/// Whether the record is a supplementary alignment.
pub fn is_supplementary(flags: u16) -> (r: bool)
    ensures
        r == has_flag(flags, FLAG_SUPPLEMENTARY),
{
    flags & FLAG_SUPPLEMENTARY != 0
}

/// Whether a record that is not secondary passes the policy.
pub open spec fn admits(policy: FilterPolicy, flags: u16, seq_len: usize) -> bool {
    &&& (policy.include_unaligned || !has_flag(flags, FLAG_UNMAPPED))
    &&& (policy.min_length == 0 || seq_len > policy.min_length)
}

impl FilterPolicy {
    /// Whether a record with these flags and this read length passes the
    /// policy (secondary alignments are set apart before).
    pub fn passes(&self, flags: u16, seq_len: usize) -> (r: bool)
        ensures
            r == admits(*self, flags, seq_len),
    {
        (self.include_unaligned || flags & FLAG_UNMAPPED == 0) && (self.min_length == 0 || seq_len
            > self.min_length)
    }
}

} // verus!
