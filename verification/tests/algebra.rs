//! Concrete checks of the taint-queue algebra: extraction, combination,
//! compaction, and the text helpers.

use std::collections::VecDeque;
use taint_fifo::taint::{
    combine_taints, extract_taint, non_white_taint_to_sum, reduce_taint, taint_to_sum,
};
use taint_fifo::text::{
    bytes_to_hex_swapped, parse_u64_bytes, split_commas, taint_to_string, timestamp_to_date,
    txid_from_hex, u64_to_string,
};
use taint_fifo::{CollisionRow, TaintPart};

fn q(parts: &[(u16, u64)]) -> VecDeque<TaintPart> {
    parts.iter().map(|&(name, value)| TaintPart { name, value }).collect()
}

fn v(parts: &[(u16, u64)]) -> Vec<TaintPart> {
    parts.iter().map(|&(name, value)| TaintPart { name, value }).collect()
}

fn as_vec(d: &VecDeque<TaintPart>) -> Vec<TaintPart> {
    d.iter().cloned().collect()
}

#[test]
fn extract_within_takes_exactly_n() {
    let mut src = q(&[(1, 30), (2, 20)]);
    let taken = extract_taint(&mut src, 40);
    assert_eq!(as_vec(&taken), v(&[(1, 30), (2, 10)]));
    assert_eq!(as_vec(&src), v(&[(2, 10)]));
    assert_eq!(taint_to_sum(&Some(taken)), 40);
    assert_eq!(taint_to_sum(&Some(src)), 10);
}

#[test]
fn extract_beyond_pads_with_clean() {
    let mut src = q(&[(1, 30), (2, 20)]);
    let taken = extract_taint(&mut src, 60);
    assert_eq!(as_vec(&taken), v(&[(1, 30), (2, 20), (0, 10)]));
    assert!(src.is_empty());
    assert_eq!(taint_to_sum(&Some(taken)), 60);
}

#[test]
fn extract_zero_is_empty() {
    let mut src = q(&[(1, 5)]);
    let taken = extract_taint(&mut src, 0);
    assert!(taken.is_empty());
    assert_eq!(as_vec(&src), v(&[(1, 5)]));
}

#[test]
fn combine_preserves_sum_and_counts_overlaps() {
    let mut left = q(&[(1, 50), (0, 50)]);
    let mut right = q(&[(0, 30), (2, 70)]);
    let mut rows: Vec<CollisionRow> = Vec::new();
    let collisions = combine_taints(&mut left, &mut right, &mut rows, "tag");
    assert_eq!(as_vec(&left), v(&[(1, 50), (2, 50)]));
    assert!(right.is_empty());
    assert_eq!(collisions, 1);
    assert_eq!(rows.len(), 1);
    assert_eq!(rows[0].left_name, 1);
    assert_eq!(rows[0].right_name, 2);
    assert_eq!(rows[0].overlap, 20);
    assert_eq!(rows[0].offset, 30);
    assert_eq!(rows[0].tag, "tag");
    assert_eq!(taint_to_sum(&Some(left)), 100);
}

#[test]
fn combine_left_color_wins_unless_clean() {
    let mut left = q(&[(0, 40), (3, 60)]);
    let mut right = q(&[(2, 100)]);
    let mut rows: Vec<CollisionRow> = Vec::new();
    let collisions = combine_taints(&mut left, &mut right, &mut rows, "t");
    // The clean prefix adopts the right color; the colored part keeps its own.
    assert_eq!(as_vec(&left), v(&[(2, 40), (3, 60)]));
    assert_eq!(collisions, 1);
    assert_eq!(rows[0].left_name, 3);
    assert_eq!(rows[0].right_name, 2);
    assert_eq!(rows[0].overlap, 60);
    assert_eq!(rows[0].offset, 40);
}

#[test]
fn combine_appends_longer_remainder() {
    let mut left = q(&[(1, 10)]);
    let mut right = q(&[(2, 4), (0, 20)]);
    let mut rows: Vec<CollisionRow> = Vec::new();
    let _ = combine_taints(&mut left, &mut right, &mut rows, "t");
    // Ten units are overlaid, the remaining clean 14 trail behind.
    assert_eq!(as_vec(&left), v(&[(1, 10), (0, 14)]));
    assert_eq!(taint_to_sum(&Some(left)), 24);
}

#[test]
fn reduce_merges_runs_and_drops_zeros() {
    let mut b = q(&[(1, 5), (1, 3), (0, 2), (2, 0), (2, 4)]);
    reduce_taint(&mut b);
    assert_eq!(as_vec(&b), v(&[(1, 8), (0, 2), (2, 4)]));
}

#[test]
fn reduce_is_idempotent() {
    let mut b = q(&[(1, 5), (1, 3), (0, 2), (0, 7), (1, 1)]);
    reduce_taint(&mut b);
    let once = as_vec(&b);
    reduce_taint(&mut b);
    assert_eq!(as_vec(&b), once);
}

#[test]
fn reduce_keeps_sole_clean_fragment() {
    let mut b = q(&[(0, 4), (0, 6)]);
    reduce_taint(&mut b);
    assert_eq!(as_vec(&b), v(&[(0, 10)]));
}

#[test]
fn non_white_sum_ignores_clean() {
    let b = q(&[(0, 100), (1, 30), (0, 5), (2, 7)]);
    assert_eq!(non_white_taint_to_sum(&b), 37);
    assert_eq!(taint_to_sum(&Some(b)), 142);
    assert_eq!(taint_to_sum(&None), 0);
}

#[test]
fn taint_renders_as_pairs() {
    let b = q(&[(1, 2), (0, 3)]);
    assert_eq!(taint_to_string(&Some(b)), "1 2,0 3,");
    assert_eq!(taint_to_string(&None), "");
}

#[test]
fn u64_renders_in_decimal() {
    assert_eq!(u64_to_string(0), "0");
    assert_eq!(u64_to_string(907), "907");
    assert_eq!(u64_to_string(u64::MAX), "18446744073709551615");
}

#[test]
fn parse_u64_accepts_digits_only() {
    assert_eq!(parse_u64_bytes(&b"123".to_vec()), Some(123));
    assert_eq!(parse_u64_bytes(&b"0".to_vec()), Some(0));
    assert_eq!(parse_u64_bytes(&b"18446744073709551615".to_vec()), Some(u64::MAX));
    assert_eq!(parse_u64_bytes(&b"18446744073709551616".to_vec()), None);
    assert_eq!(parse_u64_bytes(&b"".to_vec()), None);
    assert_eq!(parse_u64_bytes(&b"12a".to_vec()), None);
    assert_eq!(parse_u64_bytes(&b"-5".to_vec()), None);
}

#[test]
fn split_on_commas() {
    let toks = split_commas(&b"a,bb,,c".to_vec());
    let toks: Vec<Vec<u8>> = toks;
    assert_eq!(toks, vec![b"a".to_vec(), b"bb".to_vec(), b"".to_vec(), b"c".to_vec()]);
    assert_eq!(split_commas(&b"".to_vec()), vec![b"".to_vec()]);
}

#[test]
fn hex_renders_swapped() {
    let mut bytes = vec![0u8; 32];
    bytes[0] = 0xab;
    bytes[31] = 0x01;
    let h = bytes_to_hex_swapped(&bytes);
    assert_eq!(h.len(), 64);
    assert!(h.starts_with("01"));
    assert!(h.ends_with("ab"));
}

#[test]
fn hex_round_trips() {
    let mut bytes = vec![0u8; 32];
    for (i, b) in bytes.iter_mut().enumerate() {
        *b = (i * 7 % 256) as u8;
    }
    let h = bytes_to_hex_swapped(&bytes);
    let back = txid_from_hex(&h.into_bytes()).expect("valid hex");
    assert_eq!(back, bytes);
}

#[test]
fn txid_hex_rejects_bad_tokens() {
    assert!(txid_from_hex(&vec![b'0'; 63]).is_none());
    assert!(txid_from_hex(&vec![b'g'; 64]).is_none());
    assert!(txid_from_hex(&vec![b'A'; 64]).is_none());
    assert!(txid_from_hex(&vec![b'0'; 64]).is_some());
}

#[test]
fn timestamps_render_utc() {
    assert_eq!(timestamp_to_date(0), "19700101-000000");
    assert_eq!(timestamp_to_date(1231006505), "20090103-181505");
}
