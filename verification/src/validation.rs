//! Structural validation of a schema before it is trusted as compiler
//! input: packet names must be unique within each (direction, stage)
//! group; gaps between neighbouring numeric ids are legal and are only
//! reported as diagnostics.
use crate::custom_type::CustomType;
use crate::primitives::{PacketIdentifier, spec_same_group};
use crate::protocol::Protocol;
use vstd::prelude::*;

verus! {

/// A fatal flaw of a schema.
#[derive(Debug, Clone)]
pub enum ValidationError {
    /// Two packets of the same (direction, stage) group carry the same
    /// name; their ids identify both offenders.
    DuplicateName { name: String, first_id: PacketIdentifier, second_id: PacketIdentifier },
}

/// Entries `i` and `j` of the packet table collide: same group, same name.
pub open spec fn spec_dup_at(
    packets: Seq<(PacketIdentifier, CustomType)>,
    i: int,
    j: int,
) -> bool {
    spec_same_group(packets[i].0, packets[j].0) && packets[i].1.spec_name()
        == packets[j].1.spec_name()
}

/// No two packets of one (direction, stage) group share a name.
pub open spec fn spec_no_duplicates(packets: Seq<(PacketIdentifier, CustomType)>) -> bool {
    forall|i: int, j: int| 0 <= i < j < packets.len() ==> !(#[trigger] spec_dup_at(packets, i, j))
}

/// The error names an actual collision of the packet table: the two ids it
/// carries identify entries of one group that share the carried name.
pub open spec fn spec_reports_duplicate(
    packets: Seq<(PacketIdentifier, CustomType)>,
    e: ValidationError,
) -> bool {
    match e {
        ValidationError::DuplicateName { name, first_id, second_id } => exists|i: int, j: int|
            0 <= i < j < packets.len() && #[trigger] spec_dup_at(packets, i, j) && packets[i].0
                == first_id && packets[j].0 == second_id && name@ == packets[j].1.spec_name(),
    }
}

/// What a schema model must satisfy before compilation.
pub trait Validation {
    /// The structural invariant that validation checks.
    spec fn spec_valid(&self) -> bool;

    /// The returned error names an actual violation.
    spec fn spec_reports(&self, e: ValidationError) -> bool;

    /// Checks the invariant, returning the first violation found.
    fn validate(&self) -> (r: Result<(), ValidationError>)
        ensures
            r is Ok <==> self.spec_valid(),
            r matches Err(e) ==> self.spec_reports(e),
    ;
}

impl Validation for Protocol {
    /// A protocol is valid when no (direction, stage) group names two
    /// packets alike.
    open spec fn spec_valid(&self) -> bool {
        spec_no_duplicates(self.packets@)
    }

    open spec fn spec_reports(&self, e: ValidationError) -> bool {
        spec_reports_duplicate(self.packets@, e)
    }

    /// Scans every pair of packets within a group; the first name
    /// collision is fatal and carries both offending ids.
    fn validate(&self) -> (r: Result<(), ValidationError>)
        ensures
            r is Ok <==> self.spec_valid(),
            r matches Err(e) ==> self.spec_reports(e),
    {
        let n = self.packets.len();
        let mut i: usize = 0;
        while i < n
            invariant
                i <= n,
                n == self.packets@.len(),
                forall|a: int, b: int|
                    0 <= a < b < n && a < i ==> !(#[trigger] spec_dup_at(self.packets@, a, b)),
            decreases n - i,
        {
            let mut j: usize = i + 1;
            while j < n
                invariant
                    i < j <= n,
                    i < n,
                    n == self.packets@.len(),
                    forall|b: int| i < b < j ==> !(#[trigger] spec_dup_at(self.packets@, i as int, b)),
                decreases n - j,
            {
                let pi = &self.packets[i];
                let pj = &self.packets[j];
                if pi.0.same_group(&pj.0) && *pi.1.name_ref() == *pj.1.name_ref() {
                    proof {
                        assert(spec_dup_at(self.packets@, i as int, j as int));
                    }
                    return Err(ValidationError::DuplicateName {
                        name: pj.1.name_ref().clone(),
                        first_id: pi.0,
                        second_id: pj.0,
                    });
                }
                j = j + 1;
            }
            i = i + 1;
        }
        Ok(())
    }
}

/// Entry `k` of the packet table is followed by a packet of the same group
/// whose id does not directly succeed it.
pub open spec fn spec_gap_at(packets: Seq<(PacketIdentifier, CustomType)>, k: int) -> bool {
    spec_same_group(packets[k].0, packets[k + 1].0) && packets[k + 1].0.2.0 != packets[k].0.2.0 + 1
}

/// The id pairs around every gap up to position `k`, in table order.
pub open spec fn spec_gaps_upto(packets: Seq<(PacketIdentifier, CustomType)>, k: int) -> Seq<
    (PacketIdentifier, PacketIdentifier),
>
    decreases k,
{
    if k <= 0 {
        seq![]
    } else {
        let rest = spec_gaps_upto(packets, k - 1);
        if spec_gap_at(packets, k - 1) {
            rest + seq![(packets[k - 1].0, packets[k].0)]
        } else {
            rest
        }
    }
}

impl Protocol {
    /// Non-fatal diagnostics: every pair of neighbouring packets of one
    /// group whose numeric ids are not contiguous. Gaps are legal
    /// (reserved or removed ids) and never block compilation.
    pub fn id_gaps(&self) -> (r: Vec<(PacketIdentifier, PacketIdentifier)>)
        ensures
            r@ == spec_gaps_upto(self.packets@, self.packets@.len() - 1),
    {
        let n = self.packets.len();
        let mut out: Vec<(PacketIdentifier, PacketIdentifier)> = Vec::new();
        if n == 0 {
            return out;
        }
        let mut k: usize = 0;
        while k < n - 1
            invariant
                k <= n - 1,
                n == self.packets@.len(),
                n >= 1,
                out@ == spec_gaps_upto(self.packets@, k as int),
            decreases n - 1 - k,
        {
            let prev = &self.packets[k];
            let next = &self.packets[k + 1];
            if prev.0.same_group(&next.0) && !(prev.0.2.0 < u64::MAX && next.0.2.0 == prev.0.2.0
                + 1) {
                out.push((prev.0, next.0));
                proof {
                    assert(out@ =~= spec_gaps_upto(self.packets@, k + 1 as int));
                }
            }
            k = k + 1;
        }
        out
    }
}

} // verus!
