use ic_laya_core::snapshot::{
    block_length, header, parse_header, plan_save, restore_order, slot_offset, BLOB_BASE, SNAPSHOT_SLOT_A, SNAPSHOT_SLOT_B,
};
use ic_laya_core::storage::{seal, unseal, BLOCK_HEADER, MAX_SNAPSHOT};
use ic_laya_core::types::Error;

#[test]
fn header_round_trips_and_rejects_foreign_bytes() {
    let h = header(7, 1);
    assert_eq!(parse_header(&h), Some((7, 1)));
    assert_eq!(parse_header(&header(0, 0)), Some((0, 0)));
    let mut wrong = h;
    wrong[0] ^= 1;
    assert_eq!(parse_header(&wrong), None, "bad magic must be rejected");
    let mut bad_slot = h;
    bad_slot[15] = 9;
    assert_eq!(parse_header(&bad_slot), None, "an unknown slot must be rejected");
}

#[test]
fn slots_are_disjoint_and_fit_below_the_blob_area() {
    let max = MAX_SNAPSHOT as u64 + 48;
    assert!(SNAPSHOT_SLOT_A + max <= SNAPSHOT_SLOT_B, "slot A may not reach slot B");
    assert!(SNAPSHOT_SLOT_B + max <= BLOB_BASE, "slot B may not reach the upload area");
}

#[test]
fn slot_offsets_pick_the_two_areas() {
    assert_eq!(slot_offset(0), SNAPSHOT_SLOT_A);
    assert_eq!(slot_offset(1), SNAPSHOT_SLOT_B);
}

#[test]
fn sealed_block_round_trips_and_detects_corruption() {
    let payload = b"some state".to_vec();
    let block = seal(&payload).unwrap();
    assert_eq!(block.len(), 48 + payload.len());
    assert_eq!(&block[..8], b"ICLAYA01");
    assert_eq!(unseal(&block).unwrap(), payload);
    let mut corrupt = block.clone();
    let n = corrupt.len();
    corrupt[n - 1] ^= 1;
    assert_eq!(unseal(&corrupt), Err(Error::Storage));
    assert_eq!(unseal(&block[..40]), Err(Error::Storage));
    let mut bad_len = block.clone();
    bad_len[15] ^= 1;
    assert_eq!(unseal(&bad_len), Err(Error::Storage));
}

#[test]
fn commits_alternate_between_the_slots() {
    assert_eq!(plan_save(100, None), Ok((0, 1, SNAPSHOT_SLOT_A)));
    assert_eq!(plan_save(100, Some((1, 0))), Ok((1, 2, SNAPSHOT_SLOT_B)));
    assert_eq!(plan_save(100, Some((u32::MAX, 1))), Ok((0, 0, SNAPSHOT_SLOT_A)));
    assert_eq!(plan_save(SNAPSHOT_SLOT_B - SNAPSHOT_SLOT_A + 1, None), Err(Error::Capacity));
    assert_eq!(restore_order(Some((7, 1))), Ok((1, 0)));
    assert_eq!(restore_order(None), Err(Error::Storage));
}

#[test]
fn slot_reads_are_bounded_by_the_block_header() {
    let block = seal(b"payload").unwrap();
    let mut head = [0u8; 16];
    head.copy_from_slice(&block[..16]);
    let pages = (SNAPSHOT_SLOT_A + 65536) / 65536 + 1;
    assert_eq!(block_length(&head, SNAPSHOT_SLOT_A, pages), Ok(BLOCK_HEADER as u64 + 7));
    assert_eq!(block_length(&head, SNAPSHOT_SLOT_A, SNAPSHOT_SLOT_A / 65536), Err(Error::Storage));
    let mut foreign = head;
    foreign[0] ^= 1;
    assert_eq!(block_length(&foreign, SNAPSHOT_SLOT_A, pages), Err(Error::Storage));
    let mut huge = head;
    huge[8] = 1;
    assert_eq!(block_length(&huge, SNAPSHOT_SLOT_A, pages), Err(Error::Storage));
}
