use saddle_procgen_wfc::bitset::DomainBits;
use saddle_procgen_wfc::config::WfcTileId;
use saddle_procgen_wfc::solver::dedupe_tile_ids;

#[test]
fn empty_and_full_domains() {
    let empty = DomainBits::empty(70);
    assert_eq!(empty.bit_len(), 70);
    assert_eq!(empty.count(), 0);
    assert!(empty.is_empty());
    assert_eq!(empty.first_one(), None);

    let full = DomainBits::full(70);
    assert_eq!(full.count(), 70);
    assert!(!full.is_empty());
    assert!(full.contains(0));
    assert!(full.contains(69));
    assert!(!full.contains(70));
    assert_eq!(full.first_one(), Some(0));
    assert_eq!(full.to_indices(), (0..70).collect::<Vec<usize>>());
}

#[test]
fn singleton_holds_one_index() {
    let one = DomainBits::singleton(130, 127);
    assert!(one.is_singleton());
    assert_eq!(one.count(), 1);
    assert_eq!(one.first_one(), Some(127));
    assert_eq!(one.to_indices(), vec![127]);
    assert!(!DomainBits::full(2).is_singleton());
    assert!(!DomainBits::empty(2).is_singleton());
}

#[test]
fn insert_and_set_operations() {
    let mut a = DomainBits::empty(10);
    a.insert(1);
    a.insert(4);
    a.insert(9);
    let mut b = DomainBits::empty(10);
    b.insert(4);
    b.insert(5);

    assert!(a.intersects(&b));
    assert_eq!(a.difference(&b).to_indices(), vec![1, 9]);

    let mut union = a.duplicate();
    union.or_assign(&b);
    assert_eq!(union.to_indices(), vec![1, 4, 5, 9]);

    let mut meet = a.duplicate();
    assert!(meet.and_assign(&b));
    assert_eq!(meet.to_indices(), vec![4]);
    assert!(!meet.and_assign(&b));
    assert!(meet.same_as(&DomainBits::singleton(10, 4)));

    let mut c = DomainBits::empty(10);
    c.insert(2);
    assert!(!a.intersects(&c));
}

#[test]
fn full_domain_of_an_exact_word_multiple() {
    let full = DomainBits::full(128);
    assert_eq!(full.count(), 128);
    let mut other = DomainBits::full(128);
    assert!(!other.and_assign(&full));
    assert!(other.same_as(&full));
}

#[test]
fn dedupe_keeps_first_occurrences_in_order() {
    let ids = vec![WfcTileId(3), WfcTileId(1), WfcTileId(3), WfcTileId(2), WfcTileId(1)];
    assert_eq!(dedupe_tile_ids(ids), vec![WfcTileId(3), WfcTileId(1), WfcTileId(2)]);
    assert_eq!(dedupe_tile_ids(Vec::new()), Vec::<WfcTileId>::new());
}

#[test]
fn a_domain_counts_the_members_it_lists() {
    let mut domain = DomainBits::empty(200);
    for index in [0usize, 3, 63, 64, 65, 128, 199] {
        domain.insert(index);
    }
    assert_eq!(domain.count(), domain.to_indices().len());
    assert_eq!(domain.count(), 7);
    assert!(domain.count() <= domain.bit_len());
    let full = DomainBits::full(129);
    assert_eq!(full.count(), full.to_indices().len());
    assert!(full.count() <= full.bit_len());
}
