//! The bootstrap loader: well-formed lines load, malformed lines and
//! duplicates are skipped without touching the waiting set.

use taint_fifo::TaintFifo;

fn txid_with(tag: u8) -> Vec<u8> {
    let mut v = vec![0u8; 32];
    v[0] = tag;
    v
}

fn hex_swapped(t: &[u8]) -> String {
    t.iter().rev().map(|b| format!("{:02x}", b)).collect()
}

#[test]
fn loads_well_formed_line() {
    let mut eng = TaintFifo::new(0);
    let a = txid_with(1);
    let line = format!("{},red,100,blue,7", hex_swapped(&a)).into_bytes();
    assert!(eng.load_bootstrap_line(&line));
    assert_eq!(eng.bootstrap_addresses.entries.len(), 1);
    let (key, q) = &eng.bootstrap_addresses.entries[0];
    assert_eq!(key, &a);
    let parts: Vec<(u16, u64)> = q.iter().map(|p| (p.name, p.value)).collect();
    assert_eq!(parts, vec![(1, 100), (2, 7)]);
    // Clean is 0; red and blue got the next IDs in order of appearance.
    assert_eq!(eng.registry.tags.len(), 3);
    assert_eq!(eng.registry.tags[0], b"Clean".to_vec());
    assert_eq!(eng.registry.tags[1], b"red".to_vec());
    assert_eq!(eng.registry.tags[2], b"blue".to_vec());
}

#[test]
fn reuses_known_tags() {
    let mut eng = TaintFifo::new(0);
    let a = txid_with(1);
    let b = txid_with(2);
    assert!(eng.load_bootstrap_line(&format!("{},red,10", hex_swapped(&a)).into_bytes()));
    assert!(eng.load_bootstrap_line(&format!("{},red,20", hex_swapped(&b)).into_bytes()));
    assert_eq!(eng.registry.tags.len(), 2);
    assert_eq!(eng.bootstrap_addresses.entries.len(), 2);
}

#[test]
fn skips_duplicate_txid() {
    let mut eng = TaintFifo::new(0);
    let a = txid_with(1);
    assert!(eng.load_bootstrap_line(&format!("{},red,10", hex_swapped(&a)).into_bytes()));
    assert!(!eng.load_bootstrap_line(&format!("{},blue,20", hex_swapped(&a)).into_bytes()));
    assert_eq!(eng.bootstrap_addresses.entries.len(), 1);
    let parts: Vec<(u16, u64)> =
        eng.bootstrap_addresses.entries[0].1.iter().map(|p| (p.name, p.value)).collect();
    assert_eq!(parts, vec![(1, 10)]);
}

#[test]
fn skips_malformed_lines() {
    let mut eng = TaintFifo::new(0);
    let a = txid_with(1);
    let hexa = hex_swapped(&a);
    // Too few tokens.
    assert!(!eng.load_bootstrap_line(&format!("{}", hexa).into_bytes()));
    assert!(!eng.load_bootstrap_line(&format!("{},red", hexa).into_bytes()));
    // Unpaired trailing tag.
    assert!(!eng.load_bootstrap_line(&format!("{},red,10,blue", hexa).into_bytes()));
    // Bad value.
    assert!(!eng.load_bootstrap_line(&format!("{},red,ten", hexa).into_bytes()));
    // Zero value: fragments never carry zero value.
    assert!(!eng.load_bootstrap_line(&format!("{},red,0", hexa).into_bytes()));
    // Bad txid.
    assert!(!eng.load_bootstrap_line(&b"zz,red,10".to_vec()));
    assert!(eng.bootstrap_addresses.entries.is_empty());
}
