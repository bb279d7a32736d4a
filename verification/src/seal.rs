//! Atom minting for sealing, and the table that makes freshness **checkable**.
//!
//! Opaque ascription mints one fresh nominal atom per abstract type component.
//! Minting is a function of the sealing site, and a site is recorded, so a
//! re-elaboration can re-mint and require the result to equal what was
//! recorded: the serials are a function of the program rather than of the run.
//! Determinism is claimed here; global uniqueness across independently
//! elaborated programs is not.

use std::rc::Rc;
use vstd::prelude::*;

use crate::syntax::names_equal;
pub use crate::types::SealId;
pub use crate::types::SealSite;

verus! {

/// Why a minting or a re-minting check failed.
#[derive(Clone, Debug, PartialEq, Eq)]
pub enum SealError {
    /// Two seals claimed one site.
    SiteAlreadyMinted {
        /// The site claimed twice.
        site: SealSite,
    },
    /// A re-elaboration did not reproduce a recorded minting.
    RemintingDiverged {
        /// The serial at which the recorded and re-minted sequences first
        /// disagreed.
        serial: u64,
    },
    /// A re-elaboration minted a different number of atoms than was recorded.
    RemintingCountDiverged {
        /// How many atoms were recorded.
        recorded: usize,
        /// How many this table holds.
        minted: usize,
    },
}

/// Two sites are the same site: the same declaration sealing the same
/// component.
pub open spec fn same_site(a: SealSite, b: SealSite) -> bool {
    a.declaration@ == b.declaration@ && a.component@ == b.component@
}

/// Whether two sites are the same site.
pub fn sites_equal(a: &SealSite, b: &SealSite) -> (r: bool)
    ensures
        r == same_site(*a, *b),
{
    names_equal(a.declaration.as_str(), b.declaration.as_str()) && names_equal(
        a.component.as_str(),
        b.component.as_str(),
    )
}

/// The minted-atom table for one elaboration: every atom sealing minted, in
/// minting order; the index of a site is its serial.
#[derive(Clone, Debug)]
pub struct SealTable {
    /// The sites minted, in minting order; the index is the serial.
    order: Vec<Rc<SealSite>>,
}

impl SealTable {
    /// The sites minted so far, in minting order.
    pub closed spec fn minted(self) -> Seq<SealSite> {
        self.order@.map_values(|site: Rc<SealSite>| *site)
    }

    /// No site was minted twice.
    pub open spec fn wf(self) -> bool {
        forall|i: int, j: int|
            0 <= i < j < self.minted().len() ==> !same_site(
                #[trigger] self.minted()[i],
                #[trigger] self.minted()[j],
            )
    }

    /// An empty table — no atom minted yet.
    pub fn new() -> (t: SealTable)
        ensures
            t.minted().len() == 0,
            t.wf(),
    {
        SealTable { order: Vec::new() }
    }

    /// Mint one fresh atom for `site`: the next serial in minting order,
    /// exactly when `site` has not been minted before; the table is left
    /// unchanged on refusal.
    pub fn mint(&mut self, site: SealSite) -> (r: Result<SealId, SealError>)
        ensures
            (exists|i: int|
                0 <= i < old(self).minted().len() && same_site(
                    #[trigger] old(self).minted()[i],
                    site,
                )) ==> r == Err::<SealId, SealError>(SealError::SiteAlreadyMinted { site })
                && final(self).minted() == old(self).minted(),
            (forall|i: int|
                0 <= i < old(self).minted().len() ==> !same_site(
                    #[trigger] old(self).minted()[i],
                    site,
                )) ==> (r matches Ok(id) && id.serial == old(self).minted().len()
                && id.declaration == site.declaration && id.component == site.component
                && final(self).minted() == old(self).minted().push(site)),
            old(self).wf() ==> final(self).wf(),
    {
        let mut index: usize = 0;
        while index < self.order.len()
            invariant
                index <= self.order@.len(),
                self.minted() == old(self).minted(),
                forall|i: int| 0 <= i < index ==> !same_site(#[trigger] self.minted()[i], site),
            decreases self.order@.len() - index,
        {
            proof {
                assert(self.minted()[index as int] == *self.order@[index as int]);
            }
            if sites_equal(&self.order[index], &site) {
                return Err(SealError::SiteAlreadyMinted { site });
            }
            index = index + 1;
        }
        let serial = self.order.len() as u64;
        let id = SealId::new(serial, site.declaration.clone(), site.component.clone());
        self.order.push(Rc::new(site));
        proof {
            assert(self.minted() =~= old(self).minted().push(site));
        }
        Ok(id)
    }

    /// The sites minted, in minting order — the index of a site is its serial.
    pub fn sites(&self) -> (s: &[Rc<SealSite>])
        ensures
            s@.map_values(|site: Rc<SealSite>| *site) == self.minted(),
    {
        self.order.as_slice()
    }

    /// The number of sites minted.
    pub fn len(&self) -> (n: usize)
        ensures
            n == self.minted().len(),
    {
        self.order.len()
    }

    /// The identity a site was minted at, if it was minted.
    pub fn lookup(&self, site: &SealSite) -> (r: Option<SealId>)
        requires
            self.wf(),
        ensures
            (forall|i: int|
                0 <= i < self.minted().len() ==> !same_site(#[trigger] self.minted()[i], *site))
                ==> r is None,
            forall|i: int|
                0 <= i < self.minted().len() && same_site(#[trigger] self.minted()[i], *site)
                    ==> (r matches Some(id) && id.serial == i && id.declaration == site.declaration
                    && id.component == site.component),
    {
        let mut index: usize = 0;
        while index < self.order.len()
            invariant
                index <= self.order@.len(),
                self.wf(),
                forall|i: int| 0 <= i < index ==> !same_site(#[trigger] self.minted()[i], *site),
            decreases self.order@.len() - index,
        {
            proof {
                assert(self.minted()[index as int] == *self.order@[index as int]);
            }
            if sites_equal(&self.order[index], site) {
                proof {
                    assert forall|i: int|
                        0 <= i < self.minted().len() && same_site(
                            #[trigger] self.minted()[i],
                            *site,
                        ) implies i == index by {
                        if i != index as int {
                            if i < index {
                            } else {
                                assert(!same_site(self.minted()[index as int], self.minted()[i]));
                            }
                        }
                    }
                }
                return Some(
                    SealId::new(index as u64, site.declaration.clone(), site.component.clone()),
                );
            }
            index = index + 1;
        }
        None
    }

    /// **The freshness check.** Refute a recorded minting against this one:
    /// `Ok(())` exactly when `recorded` is this table's minting order, element
    /// for element.
    pub fn verify_reminting(&self, recorded: &[SealSite]) -> (r: Result<(), SealError>)
        ensures
            recorded@.len() != self.minted().len() ==> r == Err::<(), SealError>(
                SealError::RemintingCountDiverged {
                    recorded: recorded@.len() as usize,
                    minted: self.minted().len() as usize,
                },
            ),
            recorded@.len() == self.minted().len() ==> (r is Ok <==> forall|i: int|
                0 <= i < recorded@.len() ==> same_site(
                    #[trigger] recorded@[i],
                    self.minted()[i],
                )),
            recorded@.len() == self.minted().len() ==> (r matches Err(e) ==> exists|k: int|
                0 <= k < recorded@.len() && !same_site(recorded@[k], self.minted()[k]) && (
                forall|i: int| 0 <= i < k ==> same_site(#[trigger] recorded@[i], self.minted()[i]))
                && e == (SealError::RemintingDiverged { serial: k as u64 })),
    {
        if recorded.len() != self.order.len() {
            return Err(
                SealError::RemintingCountDiverged {
                    recorded: recorded.len(),
                    minted: self.order.len(),
                },
            );
        }
        let mut position: usize = 0;
        while position < recorded.len()
            invariant
                position <= recorded@.len(),
                recorded@.len() == self.minted().len(),
                forall|i: int|
                    0 <= i < position ==> same_site(#[trigger] recorded@[i], self.minted()[i]),
            decreases recorded@.len() - position,
        {
            proof {
                assert(self.minted()[position as int] == *self.order@[position as int]);
            }
            if !sites_equal(&recorded[position], &self.order[position]) {
                return Err(SealError::RemintingDiverged { serial: position as u64 });
            }
            position = position + 1;
        }
        Ok(())
    }
}

/// Minting more sites into a table keeps every earlier site at its
/// position, so `lookup` keeps answering it with the identity it was minted
/// at: the earlier table's sites are a prefix of the later table's.
pub proof fn lemma_minted_sites_kept(before: Seq<SealSite>, after: Seq<SealSite>, site: SealSite, i: int)
    requires
        before.len() <= after.len(),
        after.subrange(0, before.len() as int) == before,
        0 <= i < before.len(),
        same_site(before[i], site),
    ensures
        same_site(after[i], site),
{
    assert(after.subrange(0, before.len() as int)[i] == after[i]);
}

} // verus!
