use purchase_tracker::codec::{
    decode_product, decode_store, encode_product_into, encode_store, DecodeError,
};
use purchase_tracker::model::{AddOn, Date, Order, Product};

fn plain_product(name: &str, desc: &str, base_price: u64, sticker_price: u64) -> Product {
    Product {
        name: name.to_string(),
        desc: desc.to_string(),
        base_price,
        sticker_price,
        items: None,
        add_ons: None,
    }
}

fn dates_eq(a: &Date, b: &Date) -> bool {
    a == b
}

fn products_eq(a: &Product, b: &Product) -> bool {
    a.name == b.name
        && a.desc == b.desc
        && a.base_price == b.base_price
        && a.sticker_price == b.sticker_price
        && match (&a.items, &b.items) {
            (None, None) => true,
            (Some(x), Some(y)) => {
                x.len() == y.len() && x.iter().zip(y.iter()).all(|(p, q)| products_eq(p, q))
            },
            _ => false,
        }
        && match (&a.add_ons, &b.add_ons) {
            (None, None) => true,
            (Some(x), Some(y)) => {
                x.len() == y.len() && x.iter().zip(y.iter()).all(|(p, q)| add_ons_eq(p, q))
            },
            _ => false,
        }
}

fn add_ons_eq(a: &AddOn, b: &AddOn) -> bool {
    a.name == b.name
        && a.desc == b.desc
        && a.sticker_price == b.sticker_price
        && a.actual_price == b.actual_price
        && match (&a.assoc_product, &b.assoc_product) {
            (None, None) => true,
            (Some(x), Some(y)) => products_eq(x, y),
            _ => false,
        }
}

fn orders_eq(a: &Order, b: &Order) -> bool {
    dates_eq(&a.date_placed, &b.date_placed)
        && dates_eq(&a.date_shipped, &b.date_shipped)
        && a.subtotal == b.subtotal
        && a.total == b.total
        && a.notes == b.notes
        && a.products.len() == b.products.len()
        && a
            .products
            .iter()
            .zip(b.products.iter())
            .all(|(x, y)| x.1 == y.1 && products_eq(&x.0, &y.0))
}

#[test]
fn widget_order_round_trip() {
    let order = Order {
        date_placed: Date { month: 1, day: 15, year: 2024 },
        date_shipped: Date { month: 1, day: 20, year: 2024 },
        subtotal: 1999,
        total: 2149,
        products: vec![(plain_product("Widget", "A widget", 1500, 1999), 1999)],
        notes: "gift".to_string(),
    };
    let bytes = encode_store(&vec![order]);
    let decoded = decode_store(&bytes).expect("a fresh encoding must decode");
    assert_eq!(decoded.len(), 1);
    let got = &decoded[0];
    assert_eq!(got.date_placed, Date { month: 1, day: 15, year: 2024 });
    assert_eq!(got.date_shipped, Date { month: 1, day: 20, year: 2024 });
    assert_eq!(got.subtotal, 1999);
    assert_eq!(got.total, 2149);
    assert_eq!(got.notes, "gift");
    assert_eq!(got.products.len(), 1);
    assert_eq!(got.products[0].1, 1999);
    let p = &got.products[0].0;
    assert_eq!(p.name, "Widget");
    assert_eq!(p.desc, "A widget");
    assert_eq!(p.base_price, 1500);
    assert_eq!(p.sticker_price, 1999);
    assert!(p.items.is_none());
    assert!(p.add_ons.is_none());
}

#[test]
fn sub_items_kept_in_order_and_add_on_assoc_absent() {
    let product = Product {
        name: "Bundle".to_string(),
        desc: "A bundle".to_string(),
        base_price: 5000,
        sticker_price: 5500,
        items: Some(vec![
            plain_product("First", "first sub-item", 2000, 2100),
            plain_product("Second", "second sub-item", 3000, 3100),
        ]),
        add_ons: Some(vec![AddOn {
            name: "Warranty".to_string(),
            desc: "two years".to_string(),
            sticker_price: 500,
            actual_price: 400,
            assoc_product: None,
        }]),
    };
    let mut bytes = Vec::new();
    encode_product_into(&mut bytes, &product);
    let (got, end) = decode_product(&bytes, 0).expect("a fresh encoding must decode");
    assert_eq!(end, bytes.len());
    let items = got.items.as_ref().expect("sub-items must stay present");
    assert_eq!(items.len(), 2);
    assert_eq!(items[0].name, "First");
    assert_eq!(items[1].name, "Second");
    let add_ons = got.add_ons.as_ref().expect("add-ons must stay present");
    assert_eq!(add_ons.len(), 1);
    assert!(add_ons[0].assoc_product.is_none());
    assert!(products_eq(&got, &product));
}

#[test]
fn empty_store_round_trip_and_exact_bytes() {
    let bytes = encode_store(&Vec::new());
    assert_eq!(bytes, vec![0u8; 8]);
    let decoded = decode_store(&bytes).expect("the empty store must decode");
    assert!(decoded.is_empty());
}

#[test]
fn deeply_nested_product_round_trip() {
    let level3 = Product {
        name: "Core".to_string(),
        desc: "innermost".to_string(),
        base_price: 1,
        sticker_price: 2,
        items: Some(Vec::new()),
        add_ons: None,
    };
    let level2 = Product {
        name: "Middle".to_string(),
        desc: "carries the core".to_string(),
        base_price: 10,
        sticker_price: 20,
        items: Some(vec![level3]),
        add_ons: Some(vec![AddOn {
            name: "Engraving".to_string(),
            desc: "with an associated product".to_string(),
            sticker_price: 7,
            actual_price: 5,
            assoc_product: Some(plain_product("Plate", "name plate", 3, 4)),
        }]),
    };
    let level1 = Product {
        name: "Outer".to_string(),
        desc: "top of the tree".to_string(),
        base_price: 100,
        sticker_price: 200,
        items: Some(vec![level2]),
        add_ons: None,
    };
    let order = Order {
        date_placed: Date { month: 12, day: 31, year: 1999 },
        date_shipped: Date { month: 1, day: 1, year: 2000 },
        subtotal: 300,
        total: 321,
        products: vec![(level1, 299)],
        notes: String::new(),
    };
    let bytes = encode_store(&vec![order]);
    let reference = encode_store(&decode_store(&bytes).expect("must decode"));
    assert_eq!(bytes, reference);
    let decoded = decode_store(&bytes).expect("must decode");
    let inner = &decoded[0].products[0].0;
    assert_eq!(inner.items.as_ref().unwrap()[0].items.as_ref().unwrap()[0].name, "Core");
}

#[test]
fn empty_sequence_distinct_from_absent() {
    let with_empty = Product {
        items: Some(Vec::new()),
        add_ons: Some(Vec::new()),
        ..plain_product("P", "d", 1, 2)
    };
    let with_none = plain_product("P", "d", 1, 2);
    let mut a = Vec::new();
    encode_product_into(&mut a, &with_empty);
    let mut b = Vec::new();
    encode_product_into(&mut b, &with_none);
    assert_ne!(a, b);
    let (got_empty, _) = decode_product(&a, 0).unwrap();
    let (got_none, _) = decode_product(&b, 0).unwrap();
    assert!(matches!(&got_empty.items, Some(v) if v.is_empty()));
    assert!(matches!(&got_empty.add_ons, Some(v) if v.is_empty()));
    assert!(got_none.items.is_none());
    assert!(got_none.add_ons.is_none());
}

#[test]
fn every_strict_prefix_is_rejected() {
    let order = Order {
        date_placed: Date { month: 3, day: 4, year: 2023 },
        date_shipped: Date { month: 3, day: 9, year: 2023 },
        subtotal: 77,
        total: 88,
        products: vec![(plain_product("Thing", "a thing", 50, 60), 55)],
        notes: "prefix test".to_string(),
    };
    let bytes = encode_store(&vec![order]);
    for cut in 0..bytes.len() {
        let prefix: Vec<u8> = bytes[..cut].to_vec();
        assert!(decode_store(&prefix).is_err(), "prefix of length {} must be rejected", cut);
    }
}

#[test]
fn trailing_bytes_are_rejected() {
    let mut bytes = encode_store(&Vec::new());
    bytes.push(0);
    assert_eq!(decode_store(&bytes).unwrap_err(), DecodeError::TrailingBytes);
}

#[test]
fn unknown_tag_is_rejected() {
    let mut bytes = Vec::new();
    encode_product_into(&mut bytes, &plain_product("X", "y", 1, 2));
    // The items tag sits right after the two texts and the two prices.
    let tag_at = 8 + 1 + 8 + 1 + 8 + 8;
    assert_eq!(bytes[tag_at], 0);
    bytes[tag_at] = 2;
    assert_eq!(decode_product(&bytes, 0).unwrap_err(), DecodeError::UnknownTag);
}

#[test]
fn invalid_text_is_rejected() {
    let mut bytes = Vec::new();
    encode_product_into(&mut bytes, &plain_product("X", "y", 1, 2));
    // The single byte of the name follows its 8-byte length prefix.
    bytes[8] = 0xff;
    assert_eq!(decode_product(&bytes, 0).unwrap_err(), DecodeError::InvalidText);
}

#[test]
fn non_ascii_text_round_trips() {
    let product = plain_product("Schneemann \u{2603}", "gr\u{f6}\u{df}e 42", 5, 6);
    let mut bytes = Vec::new();
    encode_product_into(&mut bytes, &product);
    let (got, _) = decode_product(&bytes, 0).unwrap();
    assert_eq!(got.name, "Schneemann \u{2603}");
    assert_eq!(got.desc, "gr\u{f6}\u{df}e 42");
}

#[test]
fn encoding_is_deterministic() {
    let order = Order {
        date_placed: Date { month: 6, day: 6, year: 2021 },
        date_shipped: Date { month: 7, day: 7, year: 2021 },
        subtotal: 1,
        total: 2,
        products: Vec::new(),
        notes: "same bytes".to_string(),
    };
    let a = encode_store(&vec![Order { products: Vec::new(), ..order_copy(&order) }]);
    let b = encode_store(&vec![order_copy(&order)]);
    assert_eq!(a, b);
}

fn order_copy(o: &Order) -> Order {
    Order {
        date_placed: o.date_placed,
        date_shipped: o.date_shipped,
        subtotal: o.subtotal,
        total: o.total,
        products: Vec::new(),
        notes: o.notes.clone(),
    }
}

#[test]
fn truncated_store_header_is_rejected() {
    let bytes = vec![0u8; 7];
    assert_eq!(decode_store(&bytes).unwrap_err(), DecodeError::Truncated);
}

#[test]
fn length_prefix_beyond_stream_is_rejected() {
    // A store that claims one order but carries no bytes for it.
    let mut bytes = vec![0u8; 8];
    bytes[0] = 1;
    assert_eq!(decode_store(&bytes).unwrap_err(), DecodeError::Truncated);
}

#[test]
fn round_trip_preserves_full_order_values() {
    let order = Order {
        date_placed: Date { month: 2, day: 28, year: 2022 },
        date_shipped: Date { month: 3, day: 2, year: 2022 },
        subtotal: 424242,
        total: 434343,
        products: vec![
            (plain_product("A", "first", 11, 12), 13),
            (plain_product("B", "second", 21, 22), 23),
        ],
        notes: "two lines".to_string(),
    };
    let original = vec![order];
    let bytes = encode_store(&original);
    let decoded = decode_store(&bytes).unwrap();
    assert_eq!(decoded.len(), original.len());
    assert!(orders_eq(&decoded[0], &original[0]));
}
