use vstd::prelude::*;

verus! {

/// One alignment operation with its length.
#[derive(Clone, Copy, Debug, PartialEq, Eq)]
pub enum CigarOp {
    Match(u32),
    Ins(u32),
    Del(u32),
    RefSkip(u32),
    SoftClip(u32),
    HardClip(u32),
    Pad(u32),
    Equal(u32),
    Diff(u32),
}

/// The value of an auxiliary tag, by its encoding. A floating-point value is
/// only told apart from the others; its value is not carried.
#[derive(Clone, Copy, Debug, PartialEq, Eq)]
pub enum AuxValue {
    I8(i8),
    U8(u8),
    I16(i16),
    U16(u16),
    I32(i32),
    U32(u32),
    Float,
    Other,
}

/// Why a single record yields no observation.
#[derive(Clone, Copy, Debug, PartialEq, Eq)]
pub enum DerivationError {
    /// More bases are soft-clipped than the read holds.
    NegativeLength,
    /// No aligned base and no gap: the identity has a zero denominator.
    DegenerateAlignment,
    /// A tag with a negative value or an unexpected encoding.
    InvalidTag,
    /// A negative phase set.
    NegativePhaseSet,
    /// A required tag is absent.
    MissingTag,
}

/// Soft-clipped bases at the start of `ops`: a first soft clip, or a soft clip
/// right after a first hard clip.
pub open spec fn leading_softclips(ops: Seq<CigarOp>) -> int {
    if ops.len() > 0 && ops[0] is SoftClip {
        ops[0]->SoftClip_0 as int
    } else if ops.len() > 1 && ops[0] is HardClip && ops[1] is SoftClip {
        ops[1]->SoftClip_0 as int
    } else {
        0
    }
}

/// Soft-clipped bases at the end of `ops`, read from the end as above.
pub open spec fn trailing_softclips(ops: Seq<CigarOp>) -> int {
    leading_softclips(ops.reverse())
}

fn leading_clip_at(ops: &[CigarOp], first: usize, second: Option<usize>) -> (r: u32)
    requires
        first < ops@.len(),
        second matches Some(j) ==> j < ops@.len(),
    ensures
        r == if ops@[first as int] is SoftClip {
            ops@[first as int]->SoftClip_0 as int
        } else if second matches Some(j) && ops@[first as int] is HardClip && ops@[j as int] is SoftClip {
            ops@[second->Some_0 as int]->SoftClip_0 as int
        } else {
            0
        },
{
    match ops[first] {
        CigarOp::SoftClip(s) => s,
        CigarOp::HardClip(_) => match second {
            Some(j) => match ops[j] {
                CigarOp::SoftClip(s) => s,
                _ => 0,
            },
            None => 0,
        },
        _ => 0,
    }
}

/// Soft-clipped bases at both ends of the alignment.
pub fn softclipped_bases(ops: &[CigarOp]) -> (r: u128)
    ensures
        r == leading_softclips(ops@) + trailing_softclips(ops@),
{
    let n = ops.len();
    if n == 0 {
        return 0;
    }
    let lead = leading_clip_at(ops, 0, if n > 1 { Some(1) } else { None });
    let trail = leading_clip_at(ops, n - 1, if n > 1 { Some(n - 2) } else { None });
    proof {
        let rev = ops@.reverse();
        assert(rev.len() == n);
        assert(rev[0] == ops@[n - 1]);
        if n > 1 {
            assert(rev[1] == ops@[n - 2]);
        }
    }
    lead as u128 + trail as u128
}

/// Effective length of a read: its length without the soft-clipped bases.
pub fn effective_length(seq_len: usize, ops: &[CigarOp]) -> (r: Result<u128, DerivationError>)
    ensures
        r matches Ok(v) ==> v == seq_len - leading_softclips(ops@) - trailing_softclips(ops@),
        r is Err <==> seq_len < leading_softclips(ops@) + trailing_softclips(ops@),
        r matches Err(e) ==> e == DerivationError::NegativeLength,
{
    let clipped = softclipped_bases(ops);
    if clipped > seq_len as u128 {
        Err(DerivationError::NegativeLength)
    } else {
        Ok(seq_len as u128 - clipped)
    }
}

/// Number of reference skips among the first `n` operations.
pub open spec fn ref_skips(ops: Seq<CigarOp>, n: int) -> int
    decreases n,
{
    if n <= 0 {
        0
    } else {
        ref_skips(ops, n - 1) + if ops[n - 1] is RefSkip {
            1int
        } else {
            0
        }
    }
}

/// Number of exons: one more than the number of reference skips.
pub fn get_exon_number(ops: &[CigarOp]) -> (r: usize)
    requires
        ops@.len() < usize::MAX,
    ensures
        r == 1 + ref_skips(ops@, ops@.len() as int),
{
    let mut count: usize = 1;
    let mut i: usize = 0;
    while i < ops.len()
        invariant
            i <= ops@.len(),
            ops@.len() < usize::MAX,
            count == 1 + ref_skips(ops@, i as int),
            ref_skips(ops@, i as int) <= i,
        decreases ops.len() - i,
    {
        if let CigarOp::RefSkip(_) = ops[i] {
            count = count + 1;
        }
        i = i + 1;
    }
    count
}

/// Total length of the match, equal and mismatch operations among the first `n`.
pub open spec fn aligned_bases(ops: Seq<CigarOp>, n: int) -> int
    decreases n,
{
    if n <= 0 {
        0
    } else {
        aligned_bases(ops, n - 1) + match ops[n - 1] {
            CigarOp::Match(l) => l as int,
            CigarOp::Equal(l) => l as int,
            CigarOp::Diff(l) => l as int,
            _ => 0,
        }
    }
}

/// Total length of the insertions and deletions among the first `n` operations.
pub open spec fn gap_bases(ops: Seq<CigarOp>, n: int) -> int
    decreases n,
{
    if n <= 0 {
        0
    } else {
        gap_bases(ops, n - 1) + match ops[n - 1] {
            CigarOp::Ins(l) => l as int,
            CigarOp::Del(l) => l as int,
            _ => 0,
        }
    }
}

/// Number of insertions and deletions among the first `n` operations.
pub open spec fn gap_runs(ops: Seq<CigarOp>, n: int) -> int
    decreases n,
{
    if n <= 0 {
        0
    } else {
        gap_runs(ops, n - 1) + match ops[n - 1] {
            CigarOp::Ins(_) => 1int,
            CigarOp::Del(_) => 1int,
            _ => 0,
        }
    }
}

/// The two terms of the gap-compressed identity
/// `100 * (1 - numerator / denominator)`.
#[derive(Clone, Copy, Debug, PartialEq, Eq)]
pub struct IdentityTerms {
    /// Edit distance, less the gap bases, plus the number of gaps.
    pub numerator: i128,
    /// Aligned bases plus the number of gaps.
    pub denominator: u128,
}

/// The terms of the gap-compressed identity of an alignment with edit distance
/// `nm`: each insertion or deletion counts once, whatever its length.
pub fn identity_terms(ops: &[CigarOp], nm: u32) -> (r: Result<IdentityTerms, DerivationError>)
    ensures
        r is Err <==> aligned_bases(ops@, ops@.len() as int) + gap_runs(ops@, ops@.len() as int) == 0,
        r matches Err(e) ==> e == DerivationError::DegenerateAlignment,
        r matches Ok(t) ==> {
            let n = ops@.len() as int;
            &&& t.numerator == nm - gap_bases(ops@, n) + gap_runs(ops@, n)
            &&& t.denominator == aligned_bases(ops@, n) + gap_runs(ops@, n)
        },
{
    let mut matches: u128 = 0;
    let mut gap_size: u128 = 0;
    let mut gap_count: u128 = 0;
    let mut i: usize = 0;
    while i < ops.len()
        invariant
            i <= ops@.len(),
            matches == aligned_bases(ops@, i as int),
            gap_size == gap_bases(ops@, i as int),
            gap_count == gap_runs(ops@, i as int),
            matches <= i * 0x1_0000_0000,
            gap_size <= i * 0x1_0000_0000,
            gap_count <= i,
        decreases ops.len() - i,
    {
        proof {
            assert(i * 0x1_0000_0000 + 0x1_0000_0000 <= 0x1_0000_0000_0000_0000int * 0x1_0000_0000)
                by (nonlinear_arith)
                requires
                    i < 0x1_0000_0000_0000_0000int,
            ;
        }
        match ops[i] {
            CigarOp::Match(l) | CigarOp::Equal(l) | CigarOp::Diff(l) => {
                matches = matches + l as u128;
            },
            CigarOp::Ins(l) | CigarOp::Del(l) => {
                gap_size = gap_size + l as u128;
                gap_count = gap_count + 1;
            },
            _ => {},
        }
        i = i + 1;
    }
    let denominator = matches + gap_count;
    if denominator == 0 {
        return Err(DerivationError::DegenerateAlignment);
    }
    Ok(IdentityTerms {
        numerator: nm as i128 - gap_size as i128 + gap_count as i128,
        denominator,
    })
}

/// The edit distance carried by an `NM` tag: any non-negative integer
/// encoding; a negative value or another encoding is invalid, and an absent
/// tag is missing.
pub fn get_nm_tag(tag: Option<AuxValue>) -> (r: Result<u32, DerivationError>)
    ensures
        tag is None ==> r == Err::<u32, DerivationError>(DerivationError::MissingTag),
        tag matches Some(v) ==> r == match v {
            AuxValue::U8(x) => Ok(x as u32),
            AuxValue::U16(x) => Ok(x as u32),
            AuxValue::U32(x) => Ok(x),
            AuxValue::I8(x) => if x >= 0 { Ok(x as u32) } else { Err(DerivationError::InvalidTag) },
            AuxValue::I16(x) => if x >= 0 { Ok(x as u32) } else { Err(DerivationError::InvalidTag) },
            AuxValue::I32(x) => if x >= 0 { Ok(x as u32) } else { Err(DerivationError::InvalidTag) },
            _ => Err(DerivationError::InvalidTag),
        },
{
    match tag {
        None => Err(DerivationError::MissingTag),
        Some(v) => match v {
            AuxValue::U8(x) => Ok(x as u32),
            AuxValue::U16(x) => Ok(x as u32),
            AuxValue::U32(x) => Ok(x),
            AuxValue::I8(x) => if x >= 0 { Ok(x as u32) } else { Err(DerivationError::InvalidTag) },
            AuxValue::I16(x) => if x >= 0 { Ok(x as u32) } else { Err(DerivationError::InvalidTag) },
            AuxValue::I32(x) => if x >= 0 { Ok(x as u32) } else { Err(DerivationError::InvalidTag) },
            _ => Err(DerivationError::InvalidTag),
        },
    }
}

/// The phase set carried by a `PS` tag, if any: any non-negative integer
/// encoding; a negative value is refused, and so is another encoding.
pub open spec fn phaseset_of(tag: Option<AuxValue>) -> Result<Option<u32>, DerivationError> {
    match tag {
        None => Ok(None),
        Some(v) => match v {
            AuxValue::U8(x) => Ok(Some(x as u32)),
            AuxValue::U16(x) => Ok(Some(x as u32)),
            AuxValue::U32(x) => Ok(Some(x)),
            AuxValue::I8(x) => if x >= 0 { Ok(Some(x as u32)) } else { Err(DerivationError::NegativePhaseSet) },
            AuxValue::I16(x) => if x >= 0 { Ok(Some(x as u32)) } else { Err(DerivationError::NegativePhaseSet) },
            AuxValue::I32(x) => if x >= 0 { Ok(Some(x as u32)) } else { Err(DerivationError::NegativePhaseSet) },
            _ => Err(DerivationError::InvalidTag),
        },
    }
}

/// Reads the phase set of a `PS` tag.
pub fn get_phaseset(tag: Option<AuxValue>) -> (r: Result<Option<u32>, DerivationError>)
    ensures
        r == phaseset_of(tag),
{
    match tag {
        None => Ok(None),
        Some(v) => match v {
            AuxValue::U8(x) => Ok(Some(x as u32)),
            AuxValue::U16(x) => Ok(Some(x as u32)),
            AuxValue::U32(x) => Ok(Some(x)),
            AuxValue::I8(x) => if x >= 0 { Ok(Some(x as u32)) } else { Err(DerivationError::NegativePhaseSet) },
            AuxValue::I16(x) => if x >= 0 { Ok(Some(x as u32)) } else { Err(DerivationError::NegativePhaseSet) },
            AuxValue::I32(x) => if x >= 0 { Ok(Some(x as u32)) } else { Err(DerivationError::NegativePhaseSet) },
            _ => Err(DerivationError::InvalidTag),
        },
    }
}

} // verus!
