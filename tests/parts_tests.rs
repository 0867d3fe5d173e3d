use fsst::counters::Counters;
use fsst::lossy_pht::{hash, LossyPHS};

#[test]
fn hash_known_values() {
    assert_eq!(hash(0), 0);
    assert_eq!(hash(1), 2971215073);
    assert_eq!(hash(4637947), 13780338034174998);
    assert_eq!(hash(0x636261), 19352263603002247);
}

#[test]
fn lossy_hash_add_get_remove() {
    let mut phs = LossyPHS::new();
    assert!(!phs.get(0x636261).used);
    assert!(phs.add(0x636261, 300));
    let e = phs.get(0x636261);
    assert!(e.used);
    assert_eq!(e.val, 300);
    assert!(!phs.add(0x636261, 301));
    assert_eq!(phs.get(0x636261).val, 300);
    phs.remove(0x636261);
    assert!(!phs.get(0x636261).used);
    assert!(phs.add(0x636261, 302));
    assert_eq!(phs.get(0x636261).val, 302);
}

#[test]
fn lossy_hash_drops_colliding_key() {
    let mut phs = LossyPHS::new();
    assert!(phs.add(0x636261, 256));
    assert!(!phs.add(0x567, 257));
    let e = phs.get(0x567);
    assert!(e.used);
    assert_eq!(e.val, 256);
}

#[test]
fn counters_count_and_clear() {
    let mut c = Counters::new();
    assert_eq!(c.get_from_c1(7), 0);
    c.incr_c1(7);
    c.incr_c1(7);
    c.incr_c1(71);
    assert_eq!(c.get_from_c1(7), 2);
    assert_eq!(c.get_from_c1(71), 1);
    assert_eq!(c.get_from_c1(135), 0);
    c.incr_c2(3, 511);
    c.incr_c2(3, 511);
    c.incr_c2(511, 3);
    assert_eq!(c.get_from_c2(3, 511), 2);
    assert_eq!(c.get_from_c2(511, 3), 1);
    assert_eq!(c.get_from_c2(3, 447), 0);
    c.clear();
    assert_eq!(c.get_from_c1(7), 0);
    assert_eq!(c.get_from_c2(3, 511), 0);
    c.incr_c1(7);
    assert_eq!(c.get_from_c1(7), 1);
}
