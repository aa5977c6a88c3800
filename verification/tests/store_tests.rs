use purchase_tracker::codec::{decode_store, encode_store, DecodeError};
use purchase_tracker::model::{Date, Order};
use purchase_tracker::store::{new_store_bytes, update_precheck, update_store_bytes, StoreError};

fn small_order(subtotal: u64, notes: &str) -> Order {
    Order {
        date_placed: Date { month: 5, day: 1, year: 2020 },
        date_shipped: Date { month: 5, day: 3, year: 2020 },
        subtotal,
        total: subtotal + 100,
        products: Vec::new(),
        notes: notes.to_string(),
    }
}

#[test]
fn new_store_refused_when_target_exists() {
    let orders = vec![small_order(10, "kept out")];
    assert_eq!(new_store_bytes(true, &orders), Err(StoreError::TargetExists));
}

#[test]
fn new_store_writes_decodable_bytes() {
    let orders = vec![small_order(10, "first")];
    let bytes = new_store_bytes(false, &orders).expect("fresh target must be accepted");
    let decoded = decode_store(&bytes).unwrap();
    assert_eq!(decoded.len(), 1);
    assert_eq!(decoded[0].subtotal, 10);
    assert_eq!(decoded[0].notes, "first");
}

#[test]
fn update_refused_without_source() {
    assert_eq!(update_precheck(false, false), Err(StoreError::SourceMissing));
}

#[test]
fn update_refused_when_target_exists() {
    assert_eq!(update_precheck(true, true), Err(StoreError::TargetExists));
    assert_eq!(update_precheck(false, true), Err(StoreError::TargetExists));
}

#[test]
fn update_accepted_with_source_and_fresh_target() {
    assert_eq!(update_precheck(true, false), Ok(()));
}

#[test]
fn update_appends_to_decoded_store() {
    let bytes = encode_store(&vec![small_order(1, "old")]);
    let out = update_store_bytes(&bytes, vec![small_order(2, "new")]).unwrap();
    let decoded = decode_store(&out).unwrap();
    assert_eq!(decoded.len(), 2);
    assert_eq!(decoded[0].notes, "old");
    assert_eq!(decoded[1].notes, "new");
}

#[test]
fn update_rejects_invalid_source() {
    let garbage = vec![9u8, 9, 9];
    let got = update_store_bytes(&garbage, vec![small_order(2, "new")]);
    assert_eq!(got.unwrap_err(), StoreError::SourceInvalid(DecodeError::Truncated));
}
