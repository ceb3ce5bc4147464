use shared_objects::reclaim::{all_released, Protection, RetiredList};

#[test]
fn reclaim_frees_only_unprotected_addresses() {
    let mut list = RetiredList::new();
    list.retire(0x10);
    list.retire(0x20);
    list.retire(0x30);
    list.retire(0x40);
    let freed = list.reclaim(&[0, 0x30, 0x99]);
    assert_eq!(freed, vec![0x10, 0x20, 0x40]);
    assert_eq!(list.into_addresses(), vec![0x30]);
}

#[test]
fn reclaim_keeps_everything_while_protected() {
    let mut list = RetiredList::new();
    list.retire(8);
    list.retire(16);
    let freed = list.reclaim(&[16, 8]);
    assert!(freed.is_empty());
    let freed = list.reclaim(&[16]);
    assert_eq!(freed, vec![8]);
    let freed = list.reclaim(&[]);
    assert_eq!(freed, vec![16]);
    assert!(list.into_addresses().is_empty());
}

#[test]
fn reclaim_of_empty_list_frees_nothing() {
    let mut list = RetiredList::new();
    assert!(list.reclaim(&[1, 2]).is_empty());
}

#[test]
fn all_released_requires_every_slot_null() {
    assert!(all_released(&[]));
    assert!(all_released(&[0, 0, 0]));
    assert!(!all_released(&[0, 4, 0]));
}

#[test]
fn protection_holds_after_two_equal_loads() {
    let mut protection = Protection::new();
    assert!(!protection.confirm(0x100));
    assert!(!protection.confirm(0x200));
    assert!(protection.confirm(0x200));
}

#[test]
fn first_load_never_confirms_a_real_address() {
    let mut protection = Protection::new();
    assert!(!protection.confirm(0x8));
    assert!(protection.confirm(0x8));
}
