use extractor::address::{child_slot, element_slot};
use extractor::error::SlotError;

fn word(last: &str) -> String {
    let mut s = String::new();
    while s.len() + last.len() < 64 {
        s.push('0');
    }
    s.push_str(last);
    s
}

#[test]
fn child_slot_adds_the_relative_slot() {
    assert_eq!(child_slot(&word("00"), "1"), Ok(word("01")));
    assert_eq!(child_slot(&word("ff"), "1"), Ok(word("0100")));
    assert_eq!(child_slot(&word("05"), "0"), Ok(word("05")));
}

#[test]
fn child_slot_wraps_at_two_to_the_256() {
    let top = "f".repeat(64);
    assert_eq!(child_slot(&top, "1"), Ok(word("00")));
    assert_eq!(child_slot(&top, "18446744073709551615"), Ok(word("fffffffffffffffe")));
}

#[test]
fn child_slot_rejects_malformed_input() {
    assert_eq!(child_slot("00", "1"), Err(SlotError::InvalidLength));
    assert_eq!(child_slot(&word("0g"), "1"), Err(SlotError::NonHex));
    assert_eq!(child_slot(&word("0A"), "1"), Err(SlotError::NonHex));
    assert_eq!(child_slot(&format!("0x{}", "0".repeat(62)), "1"), Err(SlotError::NonHex));
    assert_eq!(child_slot(&word("00"), ""), Err(SlotError::InvalidNumber));
    assert_eq!(child_slot(&word("00"), "1a"), Err(SlotError::InvalidNumber));
    assert_eq!(child_slot(&word("00"), "18446744073709551616"), Err(SlotError::InvalidNumber));
    assert_eq!(child_slot("zz", "x"), Err(SlotError::InvalidLength));
}

#[test]
fn element_slot_hashes_key_then_slot() {
    let parent = word("05");
    let mut preimage = b"0".to_vec();
    let mut slot_bytes = [0u8; 32];
    slot_bytes[31] = 5;
    preimage.extend_from_slice(&slot_bytes);
    let expected = ethers::utils::hex::encode(ethers::utils::keccak256(&preimage));
    assert_eq!(element_slot(&parent, "0"), Ok(expected.clone()));

    let mut reversed = slot_bytes.to_vec();
    reversed.extend_from_slice(b"0");
    let wrong = ethers::utils::hex::encode(ethers::utils::keccak256(&reversed));
    assert_ne!(element_slot(&parent, "0"), Ok(wrong));
    assert_ne!(element_slot(&parent, "1"), Ok(expected));
}

#[test]
fn element_slot_of_the_empty_key_and_known_digest() {
    // Known answer: Keccak-256 of 32 zero bytes.
    assert_eq!(
        element_slot(&word("00"), ""),
        Ok("290decd9548b62a8d60345a988386fc84ba6bc95484008f6362f93160ef3e563".to_string())
    );
    assert_eq!(element_slot("12", "0"), Err(SlotError::InvalidLength));
}
