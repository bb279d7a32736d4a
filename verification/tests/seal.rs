use gandr_core_checker::seal::SealError;
use gandr_core_checker::seal::SealTable;
use gandr_core_checker::types::SealSite;

/// A two-component sealing: `Counter` sealing `t` and `u`.
fn counter_sites() -> [SealSite; 2] {
    [SealSite::new("Counter", "t"), SealSite::new("Counter", "u")]
}

#[test]
fn minting_is_ordered_and_each_site_mints_once() {
    let mut table = SealTable::new();
    let [first_site, second_site] = counter_sites();
    let first = table.mint(first_site.clone()).unwrap();
    let second = table.mint(second_site.clone()).unwrap();
    assert_eq!(0_u64, first.serial(), "the first mint takes serial zero");
    assert_eq!(1_u64, second.serial(), "serials follow minting order");
    assert_ne!(first, second, "two components mint two distinct atoms");
    let recorded: Vec<SealSite> = table.sites().iter().map(|site| site.as_ref().clone()).collect();
    assert_eq!(vec![first_site, second_site], recorded, "the table records the minting order");
}

#[test]
fn a_repeated_site_is_refused() {
    let mut table = SealTable::new();
    let site = SealSite::new("Counter", "t");
    let _first = table.mint(site.clone()).unwrap();
    assert_eq!(
        Err(SealError::SiteAlreadyMinted { site: site.clone() }),
        table.mint(site),
        "one component may be sealed once"
    );
    assert_eq!(1, table.sites().len(), "the refused mint left the table unchanged");
}

#[test]
fn two_declarations_sealing_one_component_name_stay_distinct() {
    let mut table = SealTable::new();
    let first = table.mint(SealSite::new("Counter", "t")).unwrap();
    let second = table.mint(SealSite::new("Gauge", "t")).unwrap();
    assert_ne!(first, second, "structurally identical sealings in two declarations do not interchange");
}

#[test]
fn re_minting_the_same_sites_verifies() {
    let sites = counter_sites();
    let mut first_run = SealTable::new();
    for site in sites.clone() {
        let _id = first_run.mint(site).unwrap();
    }
    let mut second_run = SealTable::new();
    for site in sites {
        let _id = second_run.mint(site).unwrap();
    }
    let recorded: Vec<SealSite> = first_run.sites().iter().map(|site| site.as_ref().clone()).collect();
    assert_eq!(
        Ok(()),
        second_run.verify_reminting(&recorded),
        "re-minting one program reproduces its recorded atoms"
    );
}

#[test]
fn a_reordered_record_is_refused() {
    let [first, second] = counter_sites();
    let mut table = SealTable::new();
    let _one = table.mint(first.clone()).unwrap();
    let _two = table.mint(second.clone()).unwrap();
    assert_eq!(
        Err(SealError::RemintingDiverged { serial: 0 }),
        table.verify_reminting(&[second, first]),
        "a reordered record names different atoms and is refused"
    );
}

#[test]
fn a_truncated_record_is_refused() {
    let [first, second] = counter_sites();
    let mut table = SealTable::new();
    let _one = table.mint(first.clone()).unwrap();
    let _two = table.mint(second).unwrap();
    assert_eq!(
        Err(SealError::RemintingCountDiverged { recorded: 1, minted: 2 }),
        table.verify_reminting(&[first]),
        "a record short of the minting is refused"
    );
}
