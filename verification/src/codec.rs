//! The persistence codec: a deterministic binary encoding of the data model
//! and its exact structural inverse.
//!
//! Wire format, depth-first and pre-order throughout:
//! - `u64` fields: 8 bytes, little-endian; `u8` fields: 1 byte;
//! - text: a `u64` byte-length prefix followed by the UTF-8 bytes;
//! - optional values: a tag byte, 0 for absent, 1 for present followed by
//!   the value;
//! - sequences: a `u64` element-count prefix followed by the elements.
//!
//! `enc_*` are the specification encoders, `sdec_*` the specification
//! decoders; the executable functions are proved to match them exactly, and
//! the lemmas at the end state that the two are mutually inverse.

use vstd::prelude::*;

use crate::model::{AddOn, AddOnV, Date, Order, OrderV, Product, ProductV};
use crate::model::{add_on_view, add_ons_view, line_items_view, opt_add_ons_view,
    opt_product_view, opt_products_view, order_view, orders_view, product_view, products_view};

verus! {

/// Why a byte stream was rejected by the decoder.
#[derive(Clone, Copy, PartialEq, Eq, Structural, Debug)]
pub enum DecodeError {
    /// The stream ended before the value it announces was complete, or a
    /// length prefix implies more bytes than remain.
    Truncated,
    /// An optional-field tag byte was neither 0 nor 1.
    UnknownTag,
    /// A text field's bytes are not valid UTF-8.
    InvalidText,
    /// The stream holds a complete store followed by extra bytes.
    TrailingBytes,
}

/// The 8 little-endian bytes of a `u64`.
pub open spec fn enc_u64(n: u64) -> Seq<u8> {
    seq![
        (n & 0xff) as u8,
        ((n >> 8) & 0xff) as u8,
        ((n >> 16) & 0xff) as u8,
        ((n >> 24) & 0xff) as u8,
        ((n >> 32) & 0xff) as u8,
        ((n >> 40) & 0xff) as u8,
        ((n >> 48) & 0xff) as u8,
        ((n >> 56) & 0xff) as u8,
    ]
}

/// The `u64` read from 8 little-endian bytes.
#[verifier::opaque]
pub open spec fn le_bytes_to_u64(b: Seq<u8>) -> u64
    recommends
        b.len() == 8,
{
    ((b[0] as u64) | ((b[1] as u64) << 8) | ((b[2] as u64) << 16) | ((b[3] as u64) << 24) | (
    (b[4] as u64) << 32) | ((b[5] as u64) << 40) | ((b[6] as u64) << 48) | ((b[7] as u64)
        << 56)) as u64
}

pub proof fn lemma_le_bytes_of_enc_u64(n: u64)
    ensures
        le_bytes_to_u64(enc_u64(n)) == n,
{
    reveal(le_bytes_to_u64);
    assert((((n & 0xff) as u8 as u64) | ((((n >> 8) & 0xff) as u8 as u64) << 8) | ((((n >> 16)
        & 0xff) as u8 as u64) << 16) | ((((n >> 24) & 0xff) as u8 as u64) << 24) | ((((n >> 32)
        & 0xff) as u8 as u64) << 32) | ((((n >> 40) & 0xff) as u8 as u64) << 40) | ((((n >> 48)
        & 0xff) as u8 as u64) << 48) | ((((n >> 56) & 0xff) as u8 as u64) << 56)) == n)
        by (bit_vector);
}

pub proof fn lemma_enc_u64_of_le_bytes(b: Seq<u8>)
    requires
        b.len() == 8,
    ensures
        enc_u64(le_bytes_to_u64(b)) =~= b,
{
    reveal(le_bytes_to_u64);
    let b0 = b[0];
    let b1 = b[1];
    let b2 = b[2];
    let b3 = b[3];
    let b4 = b[4];
    let b5 = b[5];
    let b6 = b[6];
    let b7 = b[7];
    let n = le_bytes_to_u64(b);
    assert(n == ((b0 as u64) | ((b1 as u64) << 8) | ((b2 as u64) << 16) | ((b3 as u64) << 24) | (
    (b4 as u64) << 32) | ((b5 as u64) << 40) | ((b6 as u64) << 48) | ((b7 as u64) << 56)) as u64);
    assert((n & 0xff) as u8 == b0 && ((n >> 8) & 0xff) as u8 == b1 && ((n >> 16) & 0xff) as u8 == b2
        && ((n >> 24) & 0xff) as u8 == b3 && ((n >> 32) & 0xff) as u8 == b4 && ((n >> 40)
        & 0xff) as u8 == b5 && ((n >> 48) & 0xff) as u8 == b6 && ((n >> 56) & 0xff) as u8 == b7)
        by (bit_vector)
        requires
            n == ((b0 as u64) | ((b1 as u64) << 8) | ((b2 as u64) << 16) | ((b3 as u64) << 24) | (
            (b4 as u64) << 32) | ((b5 as u64) << 40) | ((b6 as u64) << 48) | ((b7 as u64)
                << 56)) as u64,
    ;
}

/// Encoding of a text field: a `u64` byte-length prefix, then the UTF-8
/// bytes of the text.
pub open spec fn enc_text(s: Seq<char>) -> Seq<u8> {
    enc_u64(vstd::utf8::encode_utf8(s).len() as u64) + vstd::utf8::encode_utf8(s)
}

/// Encoding of a date: month, day, then the year.
pub open spec fn enc_date(d: Date) -> Seq<u8> {
    seq![d.month, d.day] + enc_u64(d.year)
}

/// Encoding of a product: its scalar fields, then its optional sub-item
/// sequence, then its optional add-on sequence, depth-first.
pub open spec fn enc_product(p: ProductV) -> Seq<u8>
    decreases p, 0nat,
{
    enc_text(p.name) + enc_text(p.desc) + enc_u64(p.base_price) + enc_u64(p.sticker_price)
        + enc_opt_products(p.items) + enc_opt_add_ons(p.add_ons)
}

/// Encoding of an optional sub-item sequence: a tag byte, then the
/// count-prefixed elements when present.
pub open spec fn enc_opt_products(o: Option<Seq<ProductV>>) -> Seq<u8>
    decreases o, 2nat,
{
    match o {
        Option::Some(v) => seq![1u8] + enc_u64(v.len() as u64) + enc_products(v),
        Option::None => seq![0u8],
    }
}

/// Encoding of an optional add-on sequence.
pub open spec fn enc_opt_add_ons(o: Option<Seq<AddOnV>>) -> Seq<u8>
    decreases o, 2nat,
{
    match o {
        Option::Some(v) => seq![1u8] + enc_u64(v.len() as u64) + enc_add_ons(v),
        Option::None => seq![0u8],
    }
}

pub open spec fn enc_products(s: Seq<ProductV>) -> Seq<u8>
    decreases s, 1nat,
{
    if s.len() == 0 {
        Seq::empty()
    } else {
        enc_product(s[0]) + enc_products(s.drop_first())
    }
}

/// Encoding of an add-on: its scalar fields, then its optional associated
/// product.
pub open spec fn enc_add_on(a: AddOnV) -> Seq<u8>
    decreases a, 0nat,
{
    enc_text(a.name) + enc_text(a.desc) + enc_u64(a.sticker_price) + enc_u64(a.actual_price)
        + enc_opt_product(a.assoc_product)
}

/// Encoding of an optional associated product: a tag byte, then the
/// product when present.
pub open spec fn enc_opt_product(o: Option<ProductV>) -> Seq<u8>
    decreases o, 2nat,
{
    match o {
        Option::Some(p) => seq![1u8] + enc_product(p),
        Option::None => seq![0u8],
    }
}

pub open spec fn enc_add_ons(s: Seq<AddOnV>) -> Seq<u8>
    decreases s, 1nat,
{
    if s.len() == 0 {
        Seq::empty()
    } else {
        enc_add_on(s[0]) + enc_add_ons(s.drop_first())
    }
}

/// Encoding of one order line item: the product, then the amount paid for
/// that line.
pub open spec fn enc_line_item(t: (ProductV, u64)) -> Seq<u8>
    decreases t, 0nat,
{
    enc_product(t.0) + enc_u64(t.1)
}

pub open spec fn enc_line_items(s: Seq<(ProductV, u64)>) -> Seq<u8>
    decreases s, 1nat,
{
    if s.len() == 0 {
        Seq::empty()
    } else {
        enc_line_item(s[0]) + enc_line_items(s.drop_first())
    }
}

/// Encoding of an order: both dates, subtotal, total, the count-prefixed
/// line items, then the notes.
pub open spec fn enc_order(o: OrderV) -> Seq<u8>
    decreases o, 2nat,
{
    enc_date(o.date_placed) + enc_date(o.date_shipped) + enc_u64(o.subtotal) + enc_u64(o.total)
        + enc_u64(o.products.len() as u64) + enc_line_items(o.products) + enc_text(o.notes)
}

pub open spec fn enc_orders(s: Seq<OrderV>) -> Seq<u8>
    decreases s, 3nat,
{
    if s.len() == 0 {
        Seq::empty()
    } else {
        enc_order(s[0]) + enc_orders(s.drop_first())
    }
}

/// Encoding of a whole order store: the count-prefixed order sequence.
pub open spec fn enc_store(s: Seq<OrderV>) -> Seq<u8> {
    enc_u64(s.len() as u64) + enc_orders(s)
}

/// A text view whose UTF-8 byte length fits the length prefix.
pub open spec fn wf_text(s: Seq<char>) -> bool {
    vstd::utf8::encode_utf8(s).len() <= u64::MAX
}

/// Well-formed product view: every text field and every sequence fits its
/// `u64` prefix, recursively. Every value the executable model can hold is
/// well formed.
pub open spec fn wf_product(p: ProductV) -> bool
    decreases p, 0nat,
{
    &&& wf_text(p.name)
    &&& wf_text(p.desc)
    &&& match p.items {
        Option::Some(v) => v.len() <= u64::MAX && wf_products(v),
        Option::None => true,
    }
    &&& match p.add_ons {
        Option::Some(v) => v.len() <= u64::MAX && wf_add_ons(v),
        Option::None => true,
    }
}

pub open spec fn wf_products(s: Seq<ProductV>) -> bool
    decreases s, 1nat,
{
    if s.len() == 0 {
        true
    } else {
        wf_product(s[0]) && wf_products(s.drop_first())
    }
}

pub open spec fn wf_add_on(a: AddOnV) -> bool
    decreases a, 0nat,
{
    &&& wf_text(a.name)
    &&& wf_text(a.desc)
    &&& match a.assoc_product {
        Option::Some(p) => wf_product(p),
        Option::None => true,
    }
}

pub open spec fn wf_add_ons(s: Seq<AddOnV>) -> bool
    decreases s, 1nat,
{
    if s.len() == 0 {
        true
    } else {
        wf_add_on(s[0]) && wf_add_ons(s.drop_first())
    }
}

pub open spec fn wf_line_items(s: Seq<(ProductV, u64)>) -> bool
    decreases s, 1nat,
{
    if s.len() == 0 {
        true
    } else {
        wf_product(s[0].0) && wf_line_items(s.drop_first())
    }
}

pub open spec fn wf_order(o: OrderV) -> bool {
    &&& o.products.len() <= u64::MAX
    &&& wf_line_items(o.products)
    &&& wf_text(o.notes)
}

pub open spec fn wf_orders(s: Seq<OrderV>) -> bool
    decreases s,
{
    if s.len() == 0 {
        true
    } else {
        wf_order(s[0]) && wf_orders(s.drop_first())
    }
}

/// Well-formed store view: the order count and every nested length fit
/// their `u64` prefixes.
pub open spec fn wf_store(s: Seq<OrderV>) -> bool {
    s.len() <= u64::MAX && wf_orders(s)
}

/// The date read from a 10-byte slice: month, day, year.
#[verifier::opaque]
pub open spec fn date_of(b: Seq<u8>) -> Date
    recommends
        b.len() == 10,
{
    Date { month: b[0], day: b[1], year: le_bytes_to_u64(b.subrange(2, 10)) }
}

/// Specification decoder for a text field. On success it yields the decoded
/// characters and the number of bytes consumed.
#[verifier::opaque]
pub open spec fn sdec_text(s: Seq<u8>) -> Result<(Seq<char>, int), DecodeError> {
    if s.len() < 8 {
        Result::Err(DecodeError::Truncated)
    } else {
        let n = le_bytes_to_u64(s.subrange(0, 8)) as int;
        if s.len() - 8 < n {
            Result::Err(DecodeError::Truncated)
        } else {
            let b = s.subrange(8, 8 + n);
            if vstd::utf8::valid_utf8(b) {
                Result::Ok((vstd::utf8::decode_utf8(b), 8 + n))
            } else {
                Result::Err(DecodeError::InvalidText)
            }
        }
    }
}

/// Specification decoder for a product: reads the name, then hands on to
/// the staged decoders below.
pub open spec fn sdec_product(s: Seq<u8>) -> Result<(ProductV, int), DecodeError>
    decreases s.len(), 4nat, 0nat,
{
    match sdec_text(s) {
        Result::Err(e) => Result::Err(e),
        Result::Ok((name, k1)) => sdec_product1(s, name, k1),
    }
}

/// Product decoding after the name (`k1` bytes): reads the description.
pub open spec fn sdec_product1(s: Seq<u8>, name: Seq<char>, k1: int) -> Result<
    (ProductV, int),
    DecodeError,
>
    decreases s.len(), 3nat, 0nat,
{
    if !(1 <= k1 <= s.len()) {
        Result::Err(DecodeError::Truncated)
    } else {
        match sdec_text(s.skip(k1)) {
            Result::Err(e) => Result::Err(e),
            Result::Ok((desc, k2)) => sdec_product2(s, name, desc, k1, k2),
        }
    }
}

/// Product decoding after name and description (`k1 + k2` bytes): reads
/// the two prices and the optional sub-item sequence.
pub open spec fn sdec_product2(
    s: Seq<u8>,
    name: Seq<char>,
    desc: Seq<char>,
    k1: int,
    k2: int,
) -> Result<(ProductV, int), DecodeError>
    decreases s.len(), 2nat, 0nat,
{
    if !(1 <= k1 && 1 <= k2 && k1 + k2 <= s.len()) {
        Result::Err(DecodeError::Truncated)
    } else if s.len() - (k1 + k2) < 16 {
        Result::Err(DecodeError::Truncated)
    } else {
        let j = k1 + k2;
        match sdec_opt_products(s.skip(j + 16)) {
            Result::Err(e) => Result::Err(e),
            Result::Ok((items, k3)) => sdec_product3(
                s,
                name,
                desc,
                le_bytes_to_u64(s.subrange(j, j + 8)),
                le_bytes_to_u64(s.subrange(j + 8, j + 16)),
                j + 16,
                items,
                k3,
            ),
        }
    }
}

/// Product decoding after the scalars and sub-items (`j3 + k3` bytes):
/// reads the optional add-on sequence and assembles the product.
pub open spec fn sdec_product3(
    s: Seq<u8>,
    name: Seq<char>,
    desc: Seq<char>,
    base_price: u64,
    sticker_price: u64,
    j3: int,
    items: Option<Seq<ProductV>>,
    k3: int,
) -> Result<(ProductV, int), DecodeError>
    decreases s.len(), 1nat, 0nat,
{
    if !(0 <= j3 && 1 <= k3 && j3 + k3 <= s.len()) {
        Result::Err(DecodeError::Truncated)
    } else {
        match sdec_opt_add_ons(s.skip(j3 + k3)) {
            Result::Err(e) => Result::Err(e),
            Result::Ok((add_ons, k4)) => Result::Ok(
                (
                    ProductV { name, desc, base_price, sticker_price, items, add_ons },
                    j3 + k3 + k4,
                ),
            ),
        }
    }
}

/// Specification decoder for a count-bounded product sequence.
pub open spec fn sdec_products(s: Seq<u8>, n: int) -> Result<(Seq<ProductV>, int), DecodeError>
    decreases s.len(), 5nat, n,
{
    if n <= 0 {
        Result::Ok((Seq::empty(), 0))
    } else {
        match sdec_product(s) {
            Result::Err(e) => Result::Err(e),
            Result::Ok((p, k)) => if !(1 <= k <= s.len()) {
                Result::Err(DecodeError::Truncated)
            } else {
                match sdec_products(s.skip(k), n - 1) {
                    Result::Err(e) => Result::Err(e),
                    Result::Ok((v, k2)) => Result::Ok((seq![p] + v, k + k2)),
                }
            },
        }
    }
}

/// Specification decoder for the optional sub-item sequence: a tag byte,
/// then a count-prefixed sequence when present.
pub open spec fn sdec_opt_products(s: Seq<u8>) -> Result<
    (Option<Seq<ProductV>>, int),
    DecodeError,
>
    decreases s.len(), 6nat, 0nat,
{
    if s.len() < 1 {
        Result::Err(DecodeError::Truncated)
    } else if s[0] == 0 {
        Result::Ok((Option::None, 1))
    } else if s[0] == 1 {
        if s.len() < 9 {
            Result::Err(DecodeError::Truncated)
        } else {
            let n = le_bytes_to_u64(s.subrange(1, 9));
            match sdec_products(s.skip(9), n as int) {
                Result::Err(e) => Result::Err(e),
                Result::Ok((v, k)) => Result::Ok((Option::Some(v), 9 + k)),
            }
        }
    } else {
        Result::Err(DecodeError::UnknownTag)
    }
}

/// Specification decoder for an add-on: reads the name, then hands on to
/// the staged decoders below.
pub open spec fn sdec_add_on(s: Seq<u8>) -> Result<(AddOnV, int), DecodeError>
    decreases s.len(), 3nat, 0nat,
{
    match sdec_text(s) {
        Result::Err(e) => Result::Err(e),
        Result::Ok((name, k1)) => sdec_add_on1(s, name, k1),
    }
}

/// Add-on decoding after the name (`k1` bytes): reads the description.
pub open spec fn sdec_add_on1(s: Seq<u8>, name: Seq<char>, k1: int) -> Result<
    (AddOnV, int),
    DecodeError,
>
    decreases s.len(), 2nat, 0nat,
{
    if !(1 <= k1 <= s.len()) {
        Result::Err(DecodeError::Truncated)
    } else {
        match sdec_text(s.skip(k1)) {
            Result::Err(e) => Result::Err(e),
            Result::Ok((desc, k2)) => sdec_add_on2(s, name, desc, k1, k2),
        }
    }
}

/// Add-on decoding after name and description (`k1 + k2` bytes): reads the
/// two prices and the optional associated product, and assembles the
/// add-on.
pub open spec fn sdec_add_on2(
    s: Seq<u8>,
    name: Seq<char>,
    desc: Seq<char>,
    k1: int,
    k2: int,
) -> Result<(AddOnV, int), DecodeError>
    decreases s.len(), 1nat, 0nat,
{
    if !(1 <= k1 && 1 <= k2 && k1 + k2 <= s.len()) {
        Result::Err(DecodeError::Truncated)
    } else if s.len() - (k1 + k2) < 16 {
        Result::Err(DecodeError::Truncated)
    } else {
        let j = k1 + k2;
        match sdec_opt_product(s.skip(j + 16)) {
            Result::Err(e) => Result::Err(e),
            Result::Ok((assoc_product, k3)) => Result::Ok(
                (
                    AddOnV {
                        name,
                        desc,
                        sticker_price: le_bytes_to_u64(s.subrange(j, j + 8)),
                        actual_price: le_bytes_to_u64(s.subrange(j + 8, j + 16)),
                        assoc_product,
                    },
                    j + 16 + k3,
                ),
            ),
        }
    }
}

/// Specification decoder for a count-bounded add-on sequence.
pub open spec fn sdec_add_ons(s: Seq<u8>, n: int) -> Result<(Seq<AddOnV>, int), DecodeError>
    decreases s.len(), 5nat, n,
{
    if n <= 0 {
        Result::Ok((Seq::empty(), 0))
    } else {
        match sdec_add_on(s) {
            Result::Err(e) => Result::Err(e),
            Result::Ok((a, k)) => if !(1 <= k <= s.len()) {
                Result::Err(DecodeError::Truncated)
            } else {
                match sdec_add_ons(s.skip(k), n - 1) {
                    Result::Err(e) => Result::Err(e),
                    Result::Ok((v, k2)) => Result::Ok((seq![a] + v, k + k2)),
                }
            },
        }
    }
}

/// Specification decoder for the optional add-on sequence.
pub open spec fn sdec_opt_add_ons(s: Seq<u8>) -> Result<(Option<Seq<AddOnV>>, int), DecodeError>
    decreases s.len(), 6nat, 0nat,
{
    if s.len() < 1 {
        Result::Err(DecodeError::Truncated)
    } else if s[0] == 0 {
        Result::Ok((Option::None, 1))
    } else if s[0] == 1 {
        if s.len() < 9 {
            Result::Err(DecodeError::Truncated)
        } else {
            let n = le_bytes_to_u64(s.subrange(1, 9));
            match sdec_add_ons(s.skip(9), n as int) {
                Result::Err(e) => Result::Err(e),
                Result::Ok((v, k)) => Result::Ok((Option::Some(v), 9 + k)),
            }
        }
    } else {
        Result::Err(DecodeError::UnknownTag)
    }
}

/// Specification decoder for the optional associated product of an add-on.
pub open spec fn sdec_opt_product(s: Seq<u8>) -> Result<(Option<ProductV>, int), DecodeError>
    decreases s.len(), 6nat, 0nat,
{
    if s.len() < 1 {
        Result::Err(DecodeError::Truncated)
    } else if s[0] == 0 {
        Result::Ok((Option::None, 1))
    } else if s[0] == 1 {
        match sdec_product(s.skip(1)) {
            Result::Err(e) => Result::Err(e),
            Result::Ok((p, k)) => Result::Ok((Option::Some(p), 1 + k)),
        }
    } else {
        Result::Err(DecodeError::UnknownTag)
    }
}

/// Specification decoder for one order line item: the product, then the
/// amount paid for that line.
pub open spec fn sdec_line_item(s: Seq<u8>) -> Result<((ProductV, u64), int), DecodeError>
    decreases s.len(), 5nat, 0nat,
{
    match sdec_product(s) {
        Result::Err(e) => Result::Err(e),
        Result::Ok((p, k)) => if !(1 <= k <= s.len()) {
            Result::Err(DecodeError::Truncated)
        } else {
            if s.len() - k < 8 {
                Result::Err(DecodeError::Truncated)
            } else {
                Result::Ok(((p, le_bytes_to_u64(s.subrange(k, k + 8))), k + 8))
            }
        },
    }
}

/// Specification decoder for a count-bounded line-item sequence.
pub open spec fn sdec_line_items(s: Seq<u8>, n: int) -> Result<
    (Seq<(ProductV, u64)>, int),
    DecodeError,
>
    decreases s.len(), 6nat, n,
{
    if n <= 0 {
        Result::Ok((Seq::empty(), 0))
    } else {
        match sdec_line_item(s) {
            Result::Err(e) => Result::Err(e),
            Result::Ok((t, k)) => if !(1 <= k <= s.len()) {
                Result::Err(DecodeError::Truncated)
            } else {
                match sdec_line_items(s.skip(k), n - 1) {
                    Result::Err(e) => Result::Err(e),
                    Result::Ok((v, k2)) => Result::Ok((seq![t] + v, k + k2)),
                }
            },
        }
    }
}

/// Specification decoder for an order: reads the fixed 44-byte header
/// (two dates, subtotal, total, line-item count), then the line items.
pub open spec fn sdec_order(s: Seq<u8>) -> Result<(OrderV, int), DecodeError>
    decreases s.len(), 7nat, 0nat,
{
    if s.len() < 44 {
        Result::Err(DecodeError::Truncated)
    } else {
        let n = le_bytes_to_u64(s.subrange(36, 44));
        match sdec_line_items(s.skip(44), n as int) {
            Result::Err(e) => Result::Err(e),
            Result::Ok((products, k1)) => sdec_order1(
                s,
                date_of(s.subrange(0, 10)),
                date_of(s.subrange(10, 20)),
                le_bytes_to_u64(s.subrange(20, 28)),
                le_bytes_to_u64(s.subrange(28, 36)),
                products,
                k1,
            ),
        }
    }
}

/// Order decoding after the header and line items (`44 + k1` bytes): reads
/// the notes and assembles the order.
pub open spec fn sdec_order1(
    s: Seq<u8>,
    date_placed: Date,
    date_shipped: Date,
    subtotal: u64,
    total: u64,
    products: Seq<(ProductV, u64)>,
    k1: int,
) -> Result<(OrderV, int), DecodeError> {
    if !(0 <= k1 && 44 + k1 <= s.len()) {
        Result::Err(DecodeError::Truncated)
    } else {
        match sdec_text(s.skip(44 + k1)) {
            Result::Err(e) => Result::Err(e),
            Result::Ok((notes, k2)) => Result::Ok(
                (
                    OrderV { date_placed, date_shipped, subtotal, total, products, notes },
                    44 + k1 + k2,
                ),
            ),
        }
    }
}

/// Specification decoder for a count-bounded order sequence.
pub open spec fn sdec_orders(s: Seq<u8>, n: int) -> Result<(Seq<OrderV>, int), DecodeError>
    decreases s.len(), 8nat, n,
{
    if n <= 0 {
        Result::Ok((Seq::empty(), 0))
    } else {
        match sdec_order(s) {
            Result::Err(e) => Result::Err(e),
            Result::Ok((o, k)) => if !(1 <= k <= s.len()) {
                Result::Err(DecodeError::Truncated)
            } else {
                match sdec_orders(s.skip(k), n - 1) {
                    Result::Err(e) => Result::Err(e),
                    Result::Ok((v, k2)) => Result::Ok((seq![o] + v, k + k2)),
                }
            },
        }
    }
}

/// Specification decoder for a whole store: the count-prefixed order
/// sequence, together with the number of bytes consumed.
pub open spec fn sdec_store(s: Seq<u8>) -> Result<(Seq<OrderV>, int), DecodeError>
    decreases s.len(), 9nat, 0nat,
{
    if s.len() < 8 {
        Result::Err(DecodeError::Truncated)
    } else {
        let n = le_bytes_to_u64(s.subrange(0, 8));
        match sdec_orders(s.skip(8), n as int) {
            Result::Err(e) => Result::Err(e),
            Result::Ok((v, k)) => Result::Ok((v, 8 + k)),
        }
    }
}

/// Decoding of a complete byte stream as a store: the whole stream must be
/// consumed; bytes after a complete store are rejected.
pub open spec fn sdec_stream(s: Seq<u8>) -> Result<Seq<OrderV>, DecodeError> {
    match sdec_store(s) {
        Result::Err(e) => Result::Err(e),
        Result::Ok((v, k)) => if k == s.len() {
            Result::Ok(v)
        } else {
            Result::Err(DecodeError::TrailingBytes)
        },
    }
}

/// Appends the little-endian encoding of `n`.
pub fn encode_u64_into(out: &mut Vec<u8>, n: u64)
    ensures
        final(out)@ == old(out)@ + enc_u64(n),
{
    proof {
        assert(n & 0xff < 256 && (n >> 8) & 0xff < 256 && (n >> 16) & 0xff < 256 && (n >> 24)
            & 0xff < 256 && (n >> 32) & 0xff < 256 && (n >> 40) & 0xff < 256 && (n >> 48) & 0xff
            < 256 && (n >> 56) & 0xff < 256) by (bit_vector);
    }
    out.push((n & 0xff) as u8);
    out.push(((n >> 8) & 0xff) as u8);
    out.push(((n >> 16) & 0xff) as u8);
    out.push(((n >> 24) & 0xff) as u8);
    out.push(((n >> 32) & 0xff) as u8);
    out.push(((n >> 40) & 0xff) as u8);
    out.push(((n >> 48) & 0xff) as u8);
    out.push(((n >> 56) & 0xff) as u8);
    proof {
        assert(out@ =~= old(out)@ + enc_u64(n));
    }
}

/// Reads the `u64` whose little-endian bytes sit at `pos`.
pub fn read_u64_at(bytes: &Vec<u8>, pos: usize) -> (n: u64)
    requires
        pos + 8 <= bytes@.len(),
    ensures
        n == le_bytes_to_u64(bytes@.subrange(pos as int, pos as int + 8)),
{
    let len = bytes.len();
    assert(pos + 8 <= len);
    let n = (bytes[pos] as u64) | ((bytes[pos + 1] as u64) << 8) | ((bytes[pos + 2] as u64) << 16)
        | ((bytes[pos + 3] as u64) << 24) | ((bytes[pos + 4] as u64) << 32) | ((bytes[pos
        + 5] as u64) << 40) | ((bytes[pos + 6] as u64) << 48) | ((bytes[pos + 7] as u64) << 56);
    proof {
        reveal(le_bytes_to_u64);
        let b = bytes@.subrange(pos as int, pos as int + 8);
        assert(b[0] == bytes@[pos as int] && b[1] == bytes@[pos as int + 1] && b[2] == bytes@[
            pos as int + 2] && b[3] == bytes@[pos as int + 3] && b[4] == bytes@[pos as int + 4]
            && b[5] == bytes@[pos as int + 5] && b[6] == bytes@[pos as int + 6] && b[7] == bytes@[
            pos as int + 7]);
        assert(n == le_bytes_to_u64(bytes@.subrange(pos as int, pos as int + 8)));
    }
    n
}

/// Relies on `String::from_utf8`: it returns `Ok` exactly when the bytes
/// are valid UTF-8, and the returned string's UTF-8 encoding is exactly the
/// input bytes.
#[verifier::external_body]
fn bytes_to_string(v: Vec<u8>) -> (r: Option<String>)
    ensures
        r is Some <==> vstd::utf8::valid_utf8(v@),
        r matches Option::Some(s) ==> vstd::utf8::encode_utf8(s@) == v@,
{
    match String::from_utf8(v) {
        Ok(s) => Some(s),
        Err(_) => None,
    }
}

/// Appends the encoding of a text field.
pub fn encode_text_into(out: &mut Vec<u8>, s: &str)
    ensures
        final(out)@ == old(out)@ + enc_text(s@),
        wf_text(s@),
{
    let mut bv = s.as_bytes_vec();
    let n = bv.len();
    encode_u64_into(out, n as u64);
    out.append(&mut bv);
    proof {
        assert(out@ =~= old(out)@ + enc_text(s@));
    }
}

/// Appends the encoding of a date.
pub fn encode_date_into(out: &mut Vec<u8>, d: &Date)
    ensures
        final(out)@ == old(out)@ + enc_date(*d),
{
    out.push(d.month);
    out.push(d.day);
    encode_u64_into(out, d.year);
    proof {
        assert(out@ =~= old(out)@ + enc_date(*d));
    }
}

/// Appends the encoding of a product, depth-first.
pub fn encode_product_into(out: &mut Vec<u8>, p: &Product)
    ensures
        final(out)@ == old(out)@ + enc_product(product_view(*p)),
        wf_product(product_view(*p)),
    decreases *p, 0nat,
{
    encode_text_into(out, p.name.as_str());
    encode_text_into(out, p.desc.as_str());
    encode_u64_into(out, p.base_price);
    encode_u64_into(out, p.sticker_price);
    match &p.items {
        Option::Some(v) => {
            out.push(1u8);
            encode_u64_into(out, v.len() as u64);
            encode_products_into(out, v, 0);
            proof {
                assert(products_view(v@).skip(0) =~= products_view(v@));
            }
        },
        Option::None => {
            out.push(0u8);
        },
    }
    match &p.add_ons {
        Option::Some(v) => {
            out.push(1u8);
            encode_u64_into(out, v.len() as u64);
            encode_add_ons_into(out, v, 0);
            proof {
                assert(add_ons_view(v@).skip(0) =~= add_ons_view(v@));
            }
        },
        Option::None => {
            out.push(0u8);
        },
    }
    proof {
        assert(out@ =~= old(out)@ + enc_product(product_view(*p)));
    }
}

/// Appends the encodings of the products from index `i` on.
pub fn encode_products_into(out: &mut Vec<u8>, v: &Vec<Product>, i: usize)
    requires
        i <= v@.len(),
    ensures
        final(out)@ == old(out)@ + enc_products(products_view(v@).skip(i as int)),
        wf_products(products_view(v@).skip(i as int)),
    decreases *v, (v@.len() - i),
{
    if i < v.len() {
        encode_product_into(out, &v[i]);
        encode_products_into(out, v, i + 1);
        proof {
            let pv = products_view(v@);
            assert(pv.skip(i as int)[0] == product_view(v@[i as int]));
            assert(pv.skip(i as int).drop_first() =~= pv.skip(i as int + 1));
            assert(out@ =~= old(out)@ + enc_products(pv.skip(i as int)));
        }
    } else {
        proof {
            assert(products_view(v@).skip(i as int).len() == 0);
            assert(out@ =~= old(out)@ + enc_products(products_view(v@).skip(i as int)));
        }
    }
}

/// Appends the encoding of an add-on, depth-first.
pub fn encode_add_on_into(out: &mut Vec<u8>, a: &AddOn)
    ensures
        final(out)@ == old(out)@ + enc_add_on(add_on_view(*a)),
        wf_add_on(add_on_view(*a)),
    decreases *a, 0nat,
{
    encode_text_into(out, a.name.as_str());
    encode_text_into(out, a.desc.as_str());
    encode_u64_into(out, a.sticker_price);
    encode_u64_into(out, a.actual_price);
    match &a.assoc_product {
        Option::Some(p) => {
            out.push(1u8);
            encode_product_into(out, p);
        },
        Option::None => {
            out.push(0u8);
        },
    }
    proof {
        assert(out@ =~= old(out)@ + enc_add_on(add_on_view(*a)));
    }
}

/// Appends the encodings of the add-ons from index `i` on.
pub fn encode_add_ons_into(out: &mut Vec<u8>, v: &Vec<AddOn>, i: usize)
    requires
        i <= v@.len(),
    ensures
        final(out)@ == old(out)@ + enc_add_ons(add_ons_view(v@).skip(i as int)),
        wf_add_ons(add_ons_view(v@).skip(i as int)),
    decreases *v, (v@.len() - i),
{
    if i < v.len() {
        encode_add_on_into(out, &v[i]);
        encode_add_ons_into(out, v, i + 1);
        proof {
            let av = add_ons_view(v@);
            assert(av.skip(i as int)[0] == add_on_view(v@[i as int]));
            assert(av.skip(i as int).drop_first() =~= av.skip(i as int + 1));
            assert(out@ =~= old(out)@ + enc_add_ons(av.skip(i as int)));
        }
    } else {
        proof {
            assert(add_ons_view(v@).skip(i as int).len() == 0);
            assert(out@ =~= old(out)@ + enc_add_ons(add_ons_view(v@).skip(i as int)));
        }
    }
}

/// Appends the encodings of the line items from index `i` on.
pub fn encode_line_items_into(out: &mut Vec<u8>, v: &Vec<(Product, u64)>, i: usize)
    requires
        i <= v@.len(),
    ensures
        final(out)@ == old(out)@ + enc_line_items(line_items_view(v@).skip(i as int)),
        wf_line_items(line_items_view(v@).skip(i as int)),
    decreases *v, (v@.len() - i),
{
    if i < v.len() {
        let t = &v[i];
        encode_product_into(out, &t.0);
        encode_u64_into(out, t.1);
        encode_line_items_into(out, v, i + 1);
        proof {
            let lv = line_items_view(v@);
            assert(lv.skip(i as int)[0] == (product_view(v@[i as int].0), v@[i as int].1));
            assert(lv.skip(i as int).drop_first() =~= lv.skip(i as int + 1));
            assert(out@ =~= old(out)@ + enc_line_items(lv.skip(i as int)));
        }
    } else {
        proof {
            assert(line_items_view(v@).skip(i as int).len() == 0);
            assert(out@ =~= old(out)@ + enc_line_items(line_items_view(v@).skip(i as int)));
        }
    }
}

/// Appends the encoding of an order.
pub fn encode_order_into(out: &mut Vec<u8>, o: &Order)
    ensures
        final(out)@ == old(out)@ + enc_order(order_view(*o)),
        wf_order(order_view(*o)),
{
    encode_date_into(out, &o.date_placed);
    encode_date_into(out, &o.date_shipped);
    encode_u64_into(out, o.subtotal);
    encode_u64_into(out, o.total);
    encode_u64_into(out, o.products.len() as u64);
    encode_line_items_into(out, &o.products, 0);
    encode_text_into(out, o.notes.as_str());
    proof {
        assert(line_items_view(o.products@).skip(0) =~= line_items_view(o.products@));
        assert(out@ =~= old(out)@ + enc_order(order_view(*o)));
    }
}

/// Appends the encodings of the orders from index `i` on.
pub fn encode_orders_into(out: &mut Vec<u8>, v: &Vec<Order>, i: usize)
    requires
        i <= v@.len(),
    ensures
        final(out)@ == old(out)@ + enc_orders(orders_view(v@).skip(i as int)),
        wf_orders(orders_view(v@).skip(i as int)),
    decreases v@.len() - i,
{
    if i < v.len() {
        encode_order_into(out, &v[i]);
        encode_orders_into(out, v, i + 1);
        proof {
            let ov = orders_view(v@);
            assert(ov.skip(i as int)[0] == order_view(v@[i as int]));
            assert(ov.skip(i as int).drop_first() =~= ov.skip(i as int + 1));
            assert(out@ =~= old(out)@ + enc_orders(ov.skip(i as int)));
        }
    } else {
        proof {
            assert(orders_view(v@).skip(i as int).len() == 0);
            assert(out@ =~= old(out)@ + enc_orders(orders_view(v@).skip(i as int)));
        }
    }
}

/// Encodes a whole order store deterministically: the same order sequence
/// always yields the same bytes.
pub fn encode_store(orders: &Vec<Order>) -> (out: Vec<u8>)
    ensures
        out@ == enc_store(orders_view(orders@)),
        wf_store(orders_view(orders@)),
{
    let mut out: Vec<u8> = Vec::new();
    encode_u64_into(&mut out, orders.len() as u64);
    encode_orders_into(&mut out, orders, 0);
    proof {
        assert(orders_view(orders@).skip(0) =~= orders_view(orders@));
        assert(out@ =~= enc_store(orders_view(orders@)));
    }
    out
}

proof fn lemma_skip_skip(s: Seq<u8>, a: int, b: int)
    requires
        0 <= a,
        0 <= b,
        a + b <= s.len(),
    ensures
        s.skip(a).skip(b) =~= s.skip(a + b),
{
}

proof fn lemma_skip_subrange(s: Seq<u8>, p: int, x: int, y: int)
    requires
        0 <= p,
        0 <= x <= y,
        p + y <= s.len(),
    ensures
        s.skip(p).subrange(x, y) =~= s.subrange(p + x, p + y),
{
}

/// Decodes a text field at `pos`.
pub fn decode_text(bytes: &Vec<u8>, pos: usize) -> (r: Result<(String, usize), DecodeError>)
    requires
        pos <= bytes@.len(),
    ensures
        match r {
            Result::Ok((s, end)) => pos < end <= bytes@.len() && sdec_text(
                bytes@.skip(pos as int),
            ) == Result::<(Seq<char>, int), DecodeError>::Ok((s@, end - pos)),
            Result::Err(e) => sdec_text(bytes@.skip(pos as int)) == Result::<
                (Seq<char>, int),
                DecodeError,
            >::Err(e),
        },
{
    broadcast use vstd::utf8::encode_utf8_decode_utf8;

    let len = bytes.len();
    if len - pos < 8 {
        proof {
            reveal(sdec_text);
        }
        return Result::Err(DecodeError::Truncated);
    }
    let n = read_u64_at(bytes, pos);
    proof {
        lemma_skip_subrange(bytes@, pos as int, 0, 8);
    }
    let p1 = pos + 8;
    if ((len - p1) as u64) < n {
        proof {
            reveal(sdec_text);
            assert(sdec_text(bytes@.skip(pos as int)) == Result::<
                (Seq<char>, int),
                DecodeError,
            >::Err(DecodeError::Truncated));
        }
        return Result::Err(DecodeError::Truncated);
    }
    let count = n as usize;
    let mut buf: Vec<u8> = Vec::new();
    let mut j: usize = 0;
    while j < count
        invariant
            p1 + count <= bytes@.len(),
            p1 + count <= usize::MAX,
            j <= count,
            buf@ =~= bytes@.subrange(p1 as int, p1 as int + j as int),
        decreases count - j,
    {
        buf.push(bytes[p1 + j]);
        j = j + 1;
    }
    proof {
        reveal(sdec_text);
        assert(buf@ =~= bytes@.subrange(p1 as int, p1 as int + count as int));
        lemma_skip_subrange(bytes@, pos as int, 8, 8 + count as int);
        assert(bytes@.skip(pos as int).subrange(8, 8 + count as int) =~= buf@);
        assert(vstd::utf8::valid_utf8(buf@) ==> sdec_text(bytes@.skip(pos as int)) == Result::<
            (Seq<char>, int),
            DecodeError,
        >::Ok((vstd::utf8::decode_utf8(buf@), 8 + count as int)));
        assert(!vstd::utf8::valid_utf8(buf@) ==> sdec_text(bytes@.skip(pos as int)) == Result::<
            (Seq<char>, int),
            DecodeError,
        >::Err(DecodeError::InvalidText));
    }
    match bytes_to_string(buf) {
        Option::Some(s) => Result::Ok((s, p1 + count)),
        Option::None => Result::Err(DecodeError::InvalidText),
    }
}

/// Decodes the 10-byte date at `pos`.
pub fn decode_date(bytes: &Vec<u8>, pos: usize) -> (d: Date)
    requires
        pos + 10 <= bytes@.len(),
    ensures
        d == date_of(bytes@.subrange(pos as int, pos as int + 10)),
{
    let len = bytes.len();
    let month = bytes[pos];
    let day = bytes[pos + 1];
    let year = read_u64_at(bytes, pos + 2);
    proof {
        reveal(date_of);
        let b = bytes@.subrange(pos as int, pos as int + 10);
        assert(b[0] == bytes@[pos as int] && b[1] == bytes@[pos as int + 1]);
        assert(b.subrange(2, 10) =~= bytes@.subrange(pos as int + 2, pos as int + 10));
        assert(Date { month, day, year } == date_of(b));
    }
    Date { month, day, year }
}

/// Decodes a product at `pos`.
#[verifier::rlimit(100)]
#[verifier::spinoff_prover]
pub fn decode_product(bytes: &Vec<u8>, pos: usize) -> (r: Result<(Product, usize), DecodeError>)
    requires
        pos <= bytes@.len(),
    ensures
        match r {
            Result::Ok((p, end)) => pos < end <= bytes@.len() && sdec_product(
                bytes@.skip(pos as int),
            ) == Result::<(ProductV, int), DecodeError>::Ok((product_view(p), end - pos)),
            Result::Err(e) => sdec_product(bytes@.skip(pos as int)) == Result::<
                (ProductV, int),
                DecodeError,
            >::Err(e),
        },
    decreases bytes@.len() - pos, 0nat, 0nat,
{
    let ghost s = bytes@.skip(pos as int);
    let (name, p1) = match decode_text(bytes, pos) {
        Result::Ok(x) => x,
        Result::Err(e) => {
            return Result::Err(e);
        },
    };
    proof {
        assert(sdec_product(s) == sdec_product1(s, name@, p1 - pos));
        lemma_skip_skip(bytes@, pos as int, p1 - pos);
    }
    let (desc, p2) = match decode_text(bytes, p1) {
        Result::Ok(x) => x,
        Result::Err(e) => {
            return Result::Err(e);
        },
    };
    proof {
        assert(sdec_product1(s, name@, p1 - pos) == sdec_product2(
            s,
            name@,
            desc@,
            p1 - pos,
            p2 - p1,
        ));
    }
    let len = bytes.len();
    if len - p2 < 16 {
        return Result::Err(DecodeError::Truncated);
    }
    let base_price = read_u64_at(bytes, p2);
    let sticker_price = read_u64_at(bytes, p2 + 8);
    proof {
        lemma_skip_subrange(bytes@, pos as int, p2 - pos, p2 - pos + 8);
        lemma_skip_subrange(bytes@, pos as int, p2 - pos + 8, p2 - pos + 16);
        lemma_skip_skip(bytes@, pos as int, p2 + 16 - pos);
    }
    let (items, p3) = match decode_opt_products(bytes, p2 + 16) {
        Result::Ok(x) => x,
        Result::Err(e) => {
            return Result::Err(e);
        },
    };
    proof {
        assert(sdec_product2(s, name@, desc@, p1 - pos, p2 - p1) == sdec_product3(
            s,
            name@,
            desc@,
            base_price,
            sticker_price,
            p2 + 16 - pos,
            opt_products_view(items),
            p3 - p2 - 16,
        ));
        lemma_skip_skip(bytes@, pos as int, p3 - pos);
    }
    let (add_ons, p4) = match decode_opt_add_ons(bytes, p3) {
        Result::Ok(x) => x,
        Result::Err(e) => {
            return Result::Err(e);
        },
    };
    let p = Product { name, desc, base_price, sticker_price, items, add_ons };
    proof {
        assert(product_view(p) == ProductV {
            name: name@,
            desc: desc@,
            base_price,
            sticker_price,
            items: opt_products_view(p.items),
            add_ons: opt_add_ons_view(p.add_ons),
        });
    }
    Result::Ok((p, p4))
}

/// Decodes `n` consecutive products starting at `pos`.
#[verifier::rlimit(50)]
pub fn decode_products(bytes: &Vec<u8>, pos: usize, n: u64) -> (r: Result<
    (Vec<Product>, usize),
    DecodeError,
>)
    requires
        pos <= bytes@.len(),
    ensures
        match r {
            Result::Ok((v, end)) => pos <= end <= bytes@.len() && sdec_products(
                bytes@.skip(pos as int),
                n as int,
            ) == Result::<(Seq<ProductV>, int), DecodeError>::Ok((products_view(v@), end - pos)),
            Result::Err(e) => sdec_products(bytes@.skip(pos as int), n as int) == Result::<
                (Seq<ProductV>, int),
                DecodeError,
            >::Err(e),
        },
    decreases bytes@.len() - pos, 1nat, n,
{
    if n == 0 {
        let v: Vec<Product> = Vec::new();
        proof {
            assert(products_view(v@) =~= Seq::<ProductV>::empty());
        }
        return Result::Ok((v, pos));
    }
    let (p, p1) = match decode_product(bytes, pos) {
        Result::Ok(x) => x,
        Result::Err(e) => {
            return Result::Err(e);
        },
    };
    proof {
        lemma_skip_skip(bytes@, pos as int, p1 - pos);
    }
    let (mut v, end) = match decode_products(bytes, p1, n - 1) {
        Result::Ok(x) => x,
        Result::Err(e) => {
            return Result::Err(e);
        },
    };
    let ghost tail = v@;
    v.insert(0, p);
    proof {
        assert(products_view(v@) =~= seq![product_view(p)] + products_view(tail));
    }
    Result::Ok((v, end))
}

/// Decodes the optional sub-item sequence at `pos`.
#[verifier::rlimit(50)]
pub fn decode_opt_products(bytes: &Vec<u8>, pos: usize) -> (r: Result<
    (Option<Vec<Product>>, usize),
    DecodeError,
>)
    requires
        pos <= bytes@.len(),
    ensures
        match r {
            Result::Ok((o, end)) => pos < end <= bytes@.len() && sdec_opt_products(
                bytes@.skip(pos as int),
            ) == Result::<(Option<Seq<ProductV>>, int), DecodeError>::Ok(
                (opt_products_view(o), end - pos),
            ),
            Result::Err(e) => sdec_opt_products(bytes@.skip(pos as int)) == Result::<
                (Option<Seq<ProductV>>, int),
                DecodeError,
            >::Err(e),
        },
    decreases bytes@.len() - pos, 2nat, 0nat,
{
    let len = bytes.len();
    if len - pos < 1 {
        return Result::Err(DecodeError::Truncated);
    }
    let tag = bytes[pos];
    if tag == 0 {
        return Result::Ok((Option::None, pos + 1));
    }
    if tag != 1 {
        return Result::Err(DecodeError::UnknownTag);
    }
    if len - pos < 9 {
        return Result::Err(DecodeError::Truncated);
    }
    let n = read_u64_at(bytes, pos + 1);
    proof {
        lemma_skip_subrange(bytes@, pos as int, 1, 9);
        lemma_skip_skip(bytes@, pos as int, 9);
    }
    let (v, end) = match decode_products(bytes, pos + 9, n) {
        Result::Ok(x) => x,
        Result::Err(e) => {
            return Result::Err(e);
        },
    };
    Result::Ok((Option::Some(v), end))
}

/// Decodes an add-on at `pos`.
#[verifier::rlimit(100)]
pub fn decode_add_on(bytes: &Vec<u8>, pos: usize) -> (r: Result<(AddOn, usize), DecodeError>)
    requires
        pos <= bytes@.len(),
    ensures
        match r {
            Result::Ok((a, end)) => pos < end <= bytes@.len() && sdec_add_on(
                bytes@.skip(pos as int),
            ) == Result::<(AddOnV, int), DecodeError>::Ok((add_on_view(a), end - pos)),
            Result::Err(e) => sdec_add_on(bytes@.skip(pos as int)) == Result::<
                (AddOnV, int),
                DecodeError,
            >::Err(e),
        },
    decreases bytes@.len() - pos, 0nat, 0nat,
{
    let ghost s = bytes@.skip(pos as int);
    let (name, p1) = match decode_text(bytes, pos) {
        Result::Ok(x) => x,
        Result::Err(e) => {
            return Result::Err(e);
        },
    };
    proof {
        assert(sdec_add_on(s) == sdec_add_on1(s, name@, p1 - pos));
        lemma_skip_skip(bytes@, pos as int, p1 - pos);
    }
    let (desc, p2) = match decode_text(bytes, p1) {
        Result::Ok(x) => x,
        Result::Err(e) => {
            return Result::Err(e);
        },
    };
    proof {
        assert(sdec_add_on1(s, name@, p1 - pos) == sdec_add_on2(
            s,
            name@,
            desc@,
            p1 - pos,
            p2 - p1,
        ));
    }
    let len = bytes.len();
    if len - p2 < 16 {
        return Result::Err(DecodeError::Truncated);
    }
    let sticker_price = read_u64_at(bytes, p2);
    let actual_price = read_u64_at(bytes, p2 + 8);
    proof {
        lemma_skip_subrange(bytes@, pos as int, p2 - pos, p2 - pos + 8);
        lemma_skip_subrange(bytes@, pos as int, p2 - pos + 8, p2 - pos + 16);
        lemma_skip_skip(bytes@, pos as int, p2 + 16 - pos);
    }
    let (assoc_product, p3) = match decode_opt_product(bytes, p2 + 16) {
        Result::Ok(x) => x,
        Result::Err(e) => {
            return Result::Err(e);
        },
    };
    let a = AddOn { name, desc, sticker_price, actual_price, assoc_product };
    proof {
        assert(add_on_view(a) == AddOnV {
            name: name@,
            desc: desc@,
            sticker_price,
            actual_price,
            assoc_product: opt_product_view(a.assoc_product),
        });
    }
    Result::Ok((a, p3))
}

/// Decodes `n` consecutive add-ons starting at `pos`.
#[verifier::rlimit(50)]
pub fn decode_add_ons(bytes: &Vec<u8>, pos: usize, n: u64) -> (r: Result<
    (Vec<AddOn>, usize),
    DecodeError,
>)
    requires
        pos <= bytes@.len(),
    ensures
        match r {
            Result::Ok((v, end)) => pos <= end <= bytes@.len() && sdec_add_ons(
                bytes@.skip(pos as int),
                n as int,
            ) == Result::<(Seq<AddOnV>, int), DecodeError>::Ok((add_ons_view(v@), end - pos)),
            Result::Err(e) => sdec_add_ons(bytes@.skip(pos as int), n as int) == Result::<
                (Seq<AddOnV>, int),
                DecodeError,
            >::Err(e),
        },
    decreases bytes@.len() - pos, 1nat, n,
{
    if n == 0 {
        let v: Vec<AddOn> = Vec::new();
        proof {
            assert(add_ons_view(v@) =~= Seq::<AddOnV>::empty());
        }
        return Result::Ok((v, pos));
    }
    let (a, p1) = match decode_add_on(bytes, pos) {
        Result::Ok(x) => x,
        Result::Err(e) => {
            return Result::Err(e);
        },
    };
    proof {
        lemma_skip_skip(bytes@, pos as int, p1 - pos);
    }
    let (mut v, end) = match decode_add_ons(bytes, p1, n - 1) {
        Result::Ok(x) => x,
        Result::Err(e) => {
            return Result::Err(e);
        },
    };
    let ghost tail = v@;
    v.insert(0, a);
    proof {
        assert(add_ons_view(v@) =~= seq![add_on_view(a)] + add_ons_view(tail));
    }
    Result::Ok((v, end))
}

/// Decodes the optional add-on sequence at `pos`.
#[verifier::rlimit(100)]
pub fn decode_opt_add_ons(bytes: &Vec<u8>, pos: usize) -> (r: Result<
    (Option<Vec<AddOn>>, usize),
    DecodeError,
>)
    requires
        pos <= bytes@.len(),
    ensures
        match r {
            Result::Ok((o, end)) => pos < end <= bytes@.len() && sdec_opt_add_ons(
                bytes@.skip(pos as int),
            ) == Result::<(Option<Seq<AddOnV>>, int), DecodeError>::Ok(
                (opt_add_ons_view(o), end - pos),
            ),
            Result::Err(e) => sdec_opt_add_ons(bytes@.skip(pos as int)) == Result::<
                (Option<Seq<AddOnV>>, int),
                DecodeError,
            >::Err(e),
        },
    decreases bytes@.len() - pos, 2nat, 0nat,
{
    let len = bytes.len();
    if len - pos < 1 {
        return Result::Err(DecodeError::Truncated);
    }
    let tag = bytes[pos];
    if tag == 0 {
        return Result::Ok((Option::None, pos + 1));
    }
    if tag != 1 {
        return Result::Err(DecodeError::UnknownTag);
    }
    if len - pos < 9 {
        return Result::Err(DecodeError::Truncated);
    }
    let n = read_u64_at(bytes, pos + 1);
    proof {
        lemma_skip_subrange(bytes@, pos as int, 1, 9);
        lemma_skip_skip(bytes@, pos as int, 9);
    }
    let (v, end) = match decode_add_ons(bytes, pos + 9, n) {
        Result::Ok(x) => x,
        Result::Err(e) => {
            return Result::Err(e);
        },
    };
    Result::Ok((Option::Some(v), end))
}

/// Decodes the optional associated product at `pos`.
#[verifier::rlimit(50)]
pub fn decode_opt_product(bytes: &Vec<u8>, pos: usize) -> (r: Result<
    (Option<Product>, usize),
    DecodeError,
>)
    requires
        pos <= bytes@.len(),
    ensures
        match r {
            Result::Ok((o, end)) => pos < end <= bytes@.len() && sdec_opt_product(
                bytes@.skip(pos as int),
            ) == Result::<(Option<ProductV>, int), DecodeError>::Ok(
                (opt_product_view(o), end - pos),
            ),
            Result::Err(e) => sdec_opt_product(bytes@.skip(pos as int)) == Result::<
                (Option<ProductV>, int),
                DecodeError,
            >::Err(e),
        },
    decreases bytes@.len() - pos, 2nat, 0nat,
{
    let len = bytes.len();
    if len - pos < 1 {
        return Result::Err(DecodeError::Truncated);
    }
    let tag = bytes[pos];
    if tag == 0 {
        return Result::Ok((Option::None, pos + 1));
    }
    if tag != 1 {
        return Result::Err(DecodeError::UnknownTag);
    }
    proof {
        lemma_skip_skip(bytes@, pos as int, 1);
    }
    let (p, end) = match decode_product(bytes, pos + 1) {
        Result::Ok(x) => x,
        Result::Err(e) => {
            proof {
                assert(bytes@.skip(pos as int)[0] == 1u8);
                assert(sdec_product(bytes@.skip(pos as int).skip(1)) == Result::<
                    (ProductV, int),
                    DecodeError,
                >::Err(e));
                assert(sdec_opt_product(bytes@.skip(pos as int)) == Result::<
                    (Option<ProductV>, int),
                    DecodeError,
                >::Err(e));
            }
            return Result::Err(e);
        },
    };
    Result::Ok((Option::Some(p), end))
}

/// Decodes `n` consecutive line items starting at `pos`.
#[verifier::rlimit(100)]
pub fn decode_line_items(bytes: &Vec<u8>, pos: usize, n: u64) -> (r: Result<
    (Vec<(Product, u64)>, usize),
    DecodeError,
>)
    requires
        pos <= bytes@.len(),
    ensures
        match r {
            Result::Ok((v, end)) => pos <= end <= bytes@.len() && sdec_line_items(
                bytes@.skip(pos as int),
                n as int,
            ) == Result::<(Seq<(ProductV, u64)>, int), DecodeError>::Ok(
                (line_items_view(v@), end - pos),
            ),
            Result::Err(e) => sdec_line_items(bytes@.skip(pos as int), n as int) == Result::<
                (Seq<(ProductV, u64)>, int),
                DecodeError,
            >::Err(e),
        },
    decreases bytes@.len() - pos, 2nat, n,
{
    if n == 0 {
        let v: Vec<(Product, u64)> = Vec::new();
        proof {
            assert(line_items_view(v@) =~= Seq::<(ProductV, u64)>::empty());
        }
        return Result::Ok((v, pos));
    }
    let (p, p1) = match decode_product(bytes, pos) {
        Result::Ok(x) => x,
        Result::Err(e) => {
            return Result::Err(e);
        },
    };
    let len = bytes.len();
    if len - p1 < 8 {
        return Result::Err(DecodeError::Truncated);
    }
    let paid = read_u64_at(bytes, p1);
    proof {
        lemma_skip_subrange(bytes@, pos as int, p1 - pos, p1 - pos + 8);
        lemma_skip_skip(bytes@, pos as int, p1 + 8 - pos);
    }
    let (mut v, end) = match decode_line_items(bytes, p1 + 8, n - 1) {
        Result::Ok(x) => x,
        Result::Err(e) => {
            return Result::Err(e);
        },
    };
    let ghost tail = v@;
    v.insert(0, (p, paid));
    proof {
        assert(line_items_view(v@) =~= seq![(product_view(p), paid)] + line_items_view(tail));
    }
    Result::Ok((v, end))
}

/// Decodes an order at `pos`.
#[verifier::rlimit(100)]
pub fn decode_order(bytes: &Vec<u8>, pos: usize) -> (r: Result<(Order, usize), DecodeError>)
    requires
        pos <= bytes@.len(),
    ensures
        match r {
            Result::Ok((o, end)) => pos < end <= bytes@.len() && sdec_order(
                bytes@.skip(pos as int),
            ) == Result::<(OrderV, int), DecodeError>::Ok((order_view(o), end - pos)),
            Result::Err(e) => sdec_order(bytes@.skip(pos as int)) == Result::<
                (OrderV, int),
                DecodeError,
            >::Err(e),
        },
    decreases bytes@.len() - pos, 3nat, 0nat,
{
    let ghost s = bytes@.skip(pos as int);
    let len = bytes.len();
    if len - pos < 44 {
        return Result::Err(DecodeError::Truncated);
    }
    let date_placed = decode_date(bytes, pos);
    let date_shipped = decode_date(bytes, pos + 10);
    let subtotal = read_u64_at(bytes, pos + 20);
    let total = read_u64_at(bytes, pos + 28);
    let n = read_u64_at(bytes, pos + 36);
    proof {
        lemma_skip_subrange(bytes@, pos as int, 0, 10);
        lemma_skip_subrange(bytes@, pos as int, 10, 20);
        lemma_skip_subrange(bytes@, pos as int, 20, 28);
        lemma_skip_subrange(bytes@, pos as int, 28, 36);
        lemma_skip_subrange(bytes@, pos as int, 36, 44);
        lemma_skip_skip(bytes@, pos as int, 44);
    }
    let (products, p1) = match decode_line_items(bytes, pos + 44, n) {
        Result::Ok(x) => x,
        Result::Err(e) => {
            return Result::Err(e);
        },
    };
    proof {
        assert(sdec_order(s) == sdec_order1(
            s,
            date_placed,
            date_shipped,
            subtotal,
            total,
            line_items_view(products@),
            p1 - pos - 44,
        ));
        lemma_skip_skip(bytes@, pos as int, p1 - pos);
    }
    let (notes, p2) = match decode_text(bytes, p1) {
        Result::Ok(x) => x,
        Result::Err(e) => {
            return Result::Err(e);
        },
    };
    let o = Order { date_placed, date_shipped, subtotal, total, products, notes };
    Result::Ok((o, p2))
}

/// Decodes `n` consecutive orders starting at `pos`.
#[verifier::rlimit(100)]
pub fn decode_orders(bytes: &Vec<u8>, pos: usize, n: u64) -> (r: Result<
    (Vec<Order>, usize),
    DecodeError,
>)
    requires
        pos <= bytes@.len(),
    ensures
        match r {
            Result::Ok((v, end)) => pos <= end <= bytes@.len() && sdec_orders(
                bytes@.skip(pos as int),
                n as int,
            ) == Result::<(Seq<OrderV>, int), DecodeError>::Ok((orders_view(v@), end - pos)),
            Result::Err(e) => sdec_orders(bytes@.skip(pos as int), n as int) == Result::<
                (Seq<OrderV>, int),
                DecodeError,
            >::Err(e),
        },
    decreases bytes@.len() - pos, 4nat, n,
{
    if n == 0 {
        let v: Vec<Order> = Vec::new();
        proof {
            assert(orders_view(v@) =~= Seq::<OrderV>::empty());
        }
        return Result::Ok((v, pos));
    }
    let (o, p1) = match decode_order(bytes, pos) {
        Result::Ok(x) => x,
        Result::Err(e) => {
            return Result::Err(e);
        },
    };
    proof {
        lemma_skip_skip(bytes@, pos as int, p1 - pos);
    }
    let (mut v, end) = match decode_orders(bytes, p1, n - 1) {
        Result::Ok(x) => x,
        Result::Err(e) => {
            return Result::Err(e);
        },
    };
    let ghost tail = v@;
    v.insert(0, o);
    proof {
        assert(orders_view(v@) =~= seq![order_view(o)] + orders_view(tail));
    }
    Result::Ok((v, end))
}

/// Decodes a complete byte stream as an order store. The stream must hold
/// exactly one store: trailing bytes are rejected, as is any truncation,
/// unknown tag or invalid text.
pub fn decode_store(bytes: &Vec<u8>) -> (r: Result<Vec<Order>, DecodeError>)
    ensures
        match r {
            Result::Ok(v) => sdec_stream(bytes@) == Result::<Seq<OrderV>, DecodeError>::Ok(
                orders_view(v@),
            ),
            Result::Err(e) => sdec_stream(bytes@) == Result::<Seq<OrderV>, DecodeError>::Err(e),
        },
{
    let len = bytes.len();
    if len < 8 {
        return Result::Err(DecodeError::Truncated);
    }
    let n = read_u64_at(bytes, 0);
    let (v, end) = match decode_orders(bytes, 8, n) {
        Result::Ok(x) => x,
        Result::Err(e) => {
            return Result::Err(e);
        },
    };
    if end != len {
        return Result::Err(DecodeError::TrailingBytes);
    }
    Result::Ok(v)
}



proof fn lemma_concat_skip(a: Seq<u8>, b: Seq<u8>)
    ensures
        (a + b).skip(a.len() as int) =~= b,
{
}

proof fn lemma_sdec_text_enc(s: Seq<char>, rest: Seq<u8>)
    requires
        wf_text(s),
    ensures
        sdec_text(enc_text(s) + rest) == Result::<(Seq<char>, int), DecodeError>::Ok(
            (s, enc_text(s).len() as int),
        ),
        enc_text(s).len() >= 8,
{
    reveal(sdec_text);
    broadcast use vstd::utf8::encode_utf8_valid_utf8, vstd::utf8::encode_utf8_decode_utf8;

    let u = vstd::utf8::encode_utf8(s);
    let ulen: u64 = u.len() as u64;
    let t = enc_text(s) + rest;
    assert(t.subrange(0, 8) =~= enc_u64(ulen));
    lemma_le_bytes_of_enc_u64(ulen);
    assert(t.subrange(8, 8 + u.len() as int) =~= u);
}

proof fn lemma_date_of_enc(d: Date)
    ensures
        date_of(enc_date(d)) == d,
        enc_date(d).len() == 10,
{
    reveal(date_of);
    let b = enc_date(d);
    assert(b[0] == d.month && b[1] == d.day);
    assert(b.subrange(2, 10) =~= enc_u64(d.year));
    lemma_le_bytes_of_enc_u64(d.year);
}

proof fn lemma_enc_product_len(p: ProductV)
    ensures
        enc_product(p).len() >= 34,
{
}

proof fn lemma_enc_add_on_len(a: AddOnV)
    ensures
        enc_add_on(a).len() >= 33,
{
}

proof fn lemma_enc_order_len(o: OrderV)
    ensures
        enc_order(o).len() >= 52,
{
}

#[verifier::rlimit(100)]
#[verifier::spinoff_prover]
proof fn lemma_l1_product(p: ProductV, rest: Seq<u8>)
    requires
        wf_product(p),
    ensures
        sdec_product(enc_product(p) + rest) == Result::<(ProductV, int), DecodeError>::Ok(
            (p, enc_product(p).len() as int),
        ),
    decreases p, 0nat,
{
    let t = enc_product(p) + rest;
    let e1 = enc_text(p.name);
    let e2 = enc_text(p.desc);
    let e3 = enc_u64(p.base_price);
    let e4 = enc_u64(p.sticker_price);
    let o1 = enc_opt_products(p.items);
    let o2 = enc_opt_add_ons(p.add_ons);
    let k1 = e1.len() as int;
    let k2 = e2.len() as int;
    let j = k1 + k2;
    assert(t =~= e1 + (e2 + (e3 + e4 + o1 + o2 + rest)));
    lemma_sdec_text_enc(p.name, e2 + (e3 + e4 + o1 + o2 + rest));
    lemma_concat_skip(e1, e2 + (e3 + e4 + o1 + o2 + rest));
    lemma_sdec_text_enc(p.desc, e3 + e4 + o1 + o2 + rest);
    assert(t.subrange(j, j + 8) =~= e3);
    assert(t.subrange(j + 8, j + 16) =~= e4);
    lemma_le_bytes_of_enc_u64(p.base_price);
    lemma_le_bytes_of_enc_u64(p.sticker_price);
    assert(t.skip(j + 16) =~= o1 + (o2 + rest));
    lemma_l1_opt_products(p.items, o2 + rest);
    let k3 = o1.len() as int;
    assert(t.skip(j + 16 + k3) =~= o2 + rest);
    lemma_l1_opt_add_ons(p.add_ons, rest);
    assert(sdec_product(t) == sdec_product1(t, p.name, k1));
    assert(sdec_product1(t, p.name, k1) == sdec_product2(t, p.name, p.desc, k1, k2));
    assert(sdec_product2(t, p.name, p.desc, k1, k2) == sdec_product3(
        t,
        p.name,
        p.desc,
        p.base_price,
        p.sticker_price,
        j + 16,
        p.items,
        k3,
    ));
}

#[verifier::rlimit(100)]
#[verifier::spinoff_prover]
proof fn lemma_l1_products(s: Seq<ProductV>, rest: Seq<u8>)
    requires
        wf_products(s),
    ensures
        sdec_products(enc_products(s) + rest, s.len() as int) == Result::<
            (Seq<ProductV>, int),
            DecodeError,
        >::Ok((s, enc_products(s).len() as int)),
    decreases s, 1nat,
{
    if s.len() == 0 {
        assert(s =~= Seq::<ProductV>::empty());
        assert(enc_products(s) + rest =~= rest);
    } else {
        let e = enc_product(s[0]);
        let t = enc_products(s) + rest;
        assert(t =~= e + (enc_products(s.drop_first()) + rest));
        lemma_l1_product(s[0], enc_products(s.drop_first()) + rest);
        lemma_enc_product_len(s[0]);
        lemma_concat_skip(e, enc_products(s.drop_first()) + rest);
        lemma_l1_products(s.drop_first(), rest);
        assert(seq![s[0]] + s.drop_first() =~= s);
    }
}

#[verifier::rlimit(100)]
#[verifier::spinoff_prover]
proof fn lemma_l1_opt_products(o: Option<Seq<ProductV>>, rest: Seq<u8>)
    requires
        o matches Option::Some(v) ==> v.len() <= u64::MAX && wf_products(v),
    ensures
        sdec_opt_products(enc_opt_products(o) + rest) == Result::<
            (Option<Seq<ProductV>>, int),
            DecodeError,
        >::Ok((o, enc_opt_products(o).len() as int)),
    decreases o, 2nat,
{
    let t = enc_opt_products(o) + rest;
    match o {
        Option::None => {
            assert(t[0] == 0u8);
        },
        Option::Some(v) => {
            let cnt: u64 = v.len() as u64;
            assert(t =~= seq![1u8] + (enc_u64(cnt) + (enc_products(v) + rest)));
            assert(t[0] == 1u8);
            assert(t.subrange(1, 9) =~= enc_u64(cnt));
            lemma_le_bytes_of_enc_u64(cnt);
            assert(t.skip(9) =~= enc_products(v) + rest);
            lemma_l1_products(v, rest);
        },
    }
}

#[verifier::rlimit(100)]
#[verifier::spinoff_prover]
proof fn lemma_l1_add_on(a: AddOnV, rest: Seq<u8>)
    requires
        wf_add_on(a),
    ensures
        sdec_add_on(enc_add_on(a) + rest) == Result::<(AddOnV, int), DecodeError>::Ok(
            (a, enc_add_on(a).len() as int),
        ),
    decreases a, 0nat,
{
    let t = enc_add_on(a) + rest;
    let e1 = enc_text(a.name);
    let e2 = enc_text(a.desc);
    let e3 = enc_u64(a.sticker_price);
    let e4 = enc_u64(a.actual_price);
    let o1 = enc_opt_product(a.assoc_product);
    let k1 = e1.len() as int;
    let k2 = e2.len() as int;
    let j = k1 + k2;
    assert(t =~= e1 + (e2 + (e3 + e4 + o1 + rest)));
    lemma_sdec_text_enc(a.name, e2 + (e3 + e4 + o1 + rest));
    lemma_concat_skip(e1, e2 + (e3 + e4 + o1 + rest));
    lemma_sdec_text_enc(a.desc, e3 + e4 + o1 + rest);
    assert(t.subrange(j, j + 8) =~= e3);
    assert(t.subrange(j + 8, j + 16) =~= e4);
    lemma_le_bytes_of_enc_u64(a.sticker_price);
    lemma_le_bytes_of_enc_u64(a.actual_price);
    assert(t.skip(j + 16) =~= o1 + rest);
    lemma_l1_opt_product(a.assoc_product, rest);
    assert(sdec_add_on(t) == sdec_add_on1(t, a.name, k1));
    assert(sdec_add_on1(t, a.name, k1) == sdec_add_on2(t, a.name, a.desc, k1, k2));
}

#[verifier::rlimit(100)]
#[verifier::spinoff_prover]
proof fn lemma_l1_add_ons(s: Seq<AddOnV>, rest: Seq<u8>)
    requires
        wf_add_ons(s),
    ensures
        sdec_add_ons(enc_add_ons(s) + rest, s.len() as int) == Result::<
            (Seq<AddOnV>, int),
            DecodeError,
        >::Ok((s, enc_add_ons(s).len() as int)),
    decreases s, 1nat,
{
    if s.len() == 0 {
        assert(s =~= Seq::<AddOnV>::empty());
        assert(enc_add_ons(s) + rest =~= rest);
    } else {
        let e = enc_add_on(s[0]);
        let t = enc_add_ons(s) + rest;
        assert(t =~= e + (enc_add_ons(s.drop_first()) + rest));
        lemma_l1_add_on(s[0], enc_add_ons(s.drop_first()) + rest);
        lemma_enc_add_on_len(s[0]);
        lemma_concat_skip(e, enc_add_ons(s.drop_first()) + rest);
        lemma_l1_add_ons(s.drop_first(), rest);
        assert(seq![s[0]] + s.drop_first() =~= s);
    }
}

#[verifier::rlimit(100)]
#[verifier::spinoff_prover]
proof fn lemma_l1_opt_add_ons(o: Option<Seq<AddOnV>>, rest: Seq<u8>)
    requires
        o matches Option::Some(v) ==> v.len() <= u64::MAX && wf_add_ons(v),
    ensures
        sdec_opt_add_ons(enc_opt_add_ons(o) + rest) == Result::<
            (Option<Seq<AddOnV>>, int),
            DecodeError,
        >::Ok((o, enc_opt_add_ons(o).len() as int)),
    decreases o, 2nat,
{
    let t = enc_opt_add_ons(o) + rest;
    match o {
        Option::None => {
            assert(t[0] == 0u8);
        },
        Option::Some(v) => {
            let cnt: u64 = v.len() as u64;
            assert(t =~= seq![1u8] + (enc_u64(cnt) + (enc_add_ons(v) + rest)));
            assert(t[0] == 1u8);
            assert(t.subrange(1, 9) =~= enc_u64(cnt));
            lemma_le_bytes_of_enc_u64(cnt);
            assert(t.skip(9) =~= enc_add_ons(v) + rest);
            lemma_l1_add_ons(v, rest);
        },
    }
}

#[verifier::rlimit(100)]
#[verifier::spinoff_prover]
proof fn lemma_l1_opt_product(o: Option<ProductV>, rest: Seq<u8>)
    requires
        o matches Option::Some(p) ==> wf_product(p),
    ensures
        sdec_opt_product(enc_opt_product(o) + rest) == Result::<
            (Option<ProductV>, int),
            DecodeError,
        >::Ok((o, enc_opt_product(o).len() as int)),
    decreases o, 2nat,
{
    let t = enc_opt_product(o) + rest;
    match o {
        Option::None => {
            assert(t[0] == 0u8);
        },
        Option::Some(p) => {
            assert(t =~= seq![1u8] + (enc_product(p) + rest));
            assert(t[0] == 1u8);
            assert(t.skip(1) =~= enc_product(p) + rest);
            lemma_l1_product(p, rest);
        },
    }
}

#[verifier::rlimit(100)]
#[verifier::spinoff_prover]
proof fn lemma_l1_line_item(t0: (ProductV, u64), rest: Seq<u8>)
    requires
        wf_product(t0.0),
    ensures
        sdec_line_item(enc_line_item(t0) + rest) == Result::<((ProductV, u64), int), DecodeError>::Ok(
            (t0, enc_line_item(t0).len() as int),
        ),
{
    let t = enc_line_item(t0) + rest;
    let e = enc_product(t0.0);
    let k = e.len() as int;
    assert(t =~= e + (enc_u64(t0.1) + rest));
    lemma_l1_product(t0.0, enc_u64(t0.1) + rest);
    lemma_enc_product_len(t0.0);
    assert(t.subrange(k, k + 8) =~= enc_u64(t0.1));
    lemma_le_bytes_of_enc_u64(t0.1);
}

#[verifier::rlimit(100)]
#[verifier::spinoff_prover]
proof fn lemma_l1_line_items(s: Seq<(ProductV, u64)>, rest: Seq<u8>)
    requires
        wf_line_items(s),
    ensures
        sdec_line_items(enc_line_items(s) + rest, s.len() as int) == Result::<
            (Seq<(ProductV, u64)>, int),
            DecodeError,
        >::Ok((s, enc_line_items(s).len() as int)),
    decreases s,
{
    if s.len() == 0 {
        assert(s =~= Seq::<(ProductV, u64)>::empty());
        assert(enc_line_items(s) + rest =~= rest);
    } else {
        let e = enc_line_item(s[0]);
        let t = enc_line_items(s) + rest;
        assert(t =~= e + (enc_line_items(s.drop_first()) + rest));
        lemma_l1_line_item(s[0], enc_line_items(s.drop_first()) + rest);
        lemma_enc_product_len(s[0].0);
        lemma_concat_skip(e, enc_line_items(s.drop_first()) + rest);
        lemma_l1_line_items(s.drop_first(), rest);
        assert(seq![s[0]] + s.drop_first() =~= s);
    }
}

#[verifier::rlimit(100)]
#[verifier::spinoff_prover]
proof fn lemma_l1_order(o: OrderV, rest: Seq<u8>)
    requires
        wf_order(o),
    ensures
        sdec_order(enc_order(o) + rest) == Result::<(OrderV, int), DecodeError>::Ok(
            (o, enc_order(o).len() as int),
        ),
{
    let t = enc_order(o) + rest;
    let d1 = enc_date(o.date_placed);
    let d2 = enc_date(o.date_shipped);
    let e1 = enc_u64(o.subtotal);
    let e2 = enc_u64(o.total);
    let cnt: u64 = o.products.len() as u64;
    let e3 = enc_u64(cnt);
    let li = enc_line_items(o.products);
    let nt = enc_text(o.notes);
    let k1 = li.len() as int;
    lemma_date_of_enc(o.date_placed);
    lemma_date_of_enc(o.date_shipped);
    assert(t.subrange(0, 10) =~= d1);
    assert(t.subrange(10, 20) =~= d2);
    assert(t.subrange(20, 28) =~= e1);
    assert(t.subrange(28, 36) =~= e2);
    assert(t.subrange(36, 44) =~= e3);
    lemma_le_bytes_of_enc_u64(o.subtotal);
    lemma_le_bytes_of_enc_u64(o.total);
    lemma_le_bytes_of_enc_u64(cnt);
    assert(t.skip(44) =~= li + (nt + rest));
    lemma_l1_line_items(o.products, nt + rest);
    assert(t.skip(44 + k1) =~= nt + rest);
    lemma_sdec_text_enc(o.notes, rest);
    assert(sdec_order(t) == sdec_order1(
        t,
        o.date_placed,
        o.date_shipped,
        o.subtotal,
        o.total,
        o.products,
        k1,
    ));
}

#[verifier::rlimit(100)]
#[verifier::spinoff_prover]
proof fn lemma_l1_orders(s: Seq<OrderV>, rest: Seq<u8>)
    requires
        wf_orders(s),
    ensures
        sdec_orders(enc_orders(s) + rest, s.len() as int) == Result::<
            (Seq<OrderV>, int),
            DecodeError,
        >::Ok((s, enc_orders(s).len() as int)),
    decreases s,
{
    if s.len() == 0 {
        assert(s =~= Seq::<OrderV>::empty());
        assert(enc_orders(s) + rest =~= rest);
    } else {
        let e = enc_order(s[0]);
        let t = enc_orders(s) + rest;
        assert(t =~= e + (enc_orders(s.drop_first()) + rest));
        lemma_l1_order(s[0], enc_orders(s.drop_first()) + rest);
        lemma_enc_order_len(s[0]);
        lemma_concat_skip(e, enc_orders(s.drop_first()) + rest);
        lemma_l1_orders(s.drop_first(), rest);
        assert(seq![s[0]] + s.drop_first() =~= s);
    }
}

/// The round-trip law: decoding the encoding of any well-formed order
/// sequence — zero orders included, every optional field preserved —
/// yields exactly that sequence, and consumes the whole stream.
pub proof fn lemma_store_round_trip(orders: Seq<OrderV>)
    requires
        wf_store(orders),
    ensures
        sdec_stream(enc_store(orders)) == Result::<Seq<OrderV>, DecodeError>::Ok(orders),
{
    let t = enc_store(orders);
    let cnt: u64 = orders.len() as u64;
    assert(t.subrange(0, 8) =~= enc_u64(cnt));
    lemma_le_bytes_of_enc_u64(cnt);
    assert(t.skip(8) =~= enc_orders(orders) + Seq::<u8>::empty());
    lemma_l1_orders(orders, Seq::empty());
}

/// Optional-field fidelity: a decoded product reports its optional
/// sub-items and add-ons exactly as present or absent as they were
/// encoded, in either combination, and never defaults one to the other.
pub proof fn lemma_optional_field_fidelity(p: ProductV, rest: Seq<u8>)
    requires
        wf_product(p),
    ensures
        sdec_product(enc_product(p) + rest) matches Result::Ok(q) ==> ((q.0.items is Some <==> p.items is Some)
            && (q.0.add_ons is Some <==> p.add_ons is Some) && q.0 == p),
{
    lemma_l1_product(p, rest);
}

#[verifier::rlimit(100)]
#[verifier::spinoff_prover]
proof fn lemma_l2_text(s: Seq<u8>)
    ensures
        sdec_text(s) matches Result::Ok(r) ==> (8 <= r.1 <= s.len() && s.subrange(0, r.1)
            == enc_text(r.0) && wf_text(r.0)),
{
    reveal(sdec_text);
    broadcast use vstd::utf8::decode_utf8_encode_utf8;

    if sdec_text(s) is Ok {
        let n = le_bytes_to_u64(s.subrange(0, 8)) as int;
        let b = s.subrange(8, 8 + n);
        lemma_enc_u64_of_le_bytes(s.subrange(0, 8));
        assert(vstd::utf8::encode_utf8(vstd::utf8::decode_utf8(b)) == b);
        assert(s.subrange(0, 8 + n) =~= s.subrange(0, 8) + b);
    }
}

#[verifier::rlimit(100)]
#[verifier::spinoff_prover]
proof fn lemma_l2_product(s: Seq<u8>)
    ensures
        sdec_product(s) matches Result::Ok(r) ==> (1 <= r.1 <= s.len() && s.subrange(0, r.1)
            == enc_product(r.0) && wf_product(r.0)),
    decreases s.len(), 4nat, 0nat,
{
    if sdec_product(s) is Ok {
        lemma_l2_text(s);
        let (name, k1) = sdec_text(s)->Ok_0;
        let s1 = s.skip(k1);
        lemma_l2_text(s1);
        let (desc, k2) = sdec_text(s1)->Ok_0;
        let j = k1 + k2;
        let s3 = s.skip(j + 16);
        lemma_l2_opt_products(s3);
        let (items, k3) = sdec_opt_products(s3)->Ok_0;
        let s4 = s.skip(j + 16 + k3);
        lemma_l2_opt_add_ons(s4);
        let (add_ons, k4) = sdec_opt_add_ons(s4)->Ok_0;
        lemma_enc_u64_of_le_bytes(s.subrange(j, j + 8));
        lemma_enc_u64_of_le_bytes(s.subrange(j + 8, j + 16));
        let k = j + 16 + k3 + k4;
        assert(s.subrange(0, k) =~= s.subrange(0, k1) + s1.subrange(0, k2) + s.subrange(j, j + 8)
            + s.subrange(j + 8, j + 16) + s3.subrange(0, k3) + s4.subrange(0, k4));
        assert(s.subrange(0, k1) == enc_text(name));
        assert(s1.subrange(0, k2) == enc_text(desc));
        assert(s3.subrange(0, k3) == enc_opt_products(items));
        assert(s4.subrange(0, k4) == enc_opt_add_ons(add_ons));
    }
}

#[verifier::rlimit(100)]
#[verifier::spinoff_prover]
proof fn lemma_l2_products(s: Seq<u8>, n: int)
    ensures
        sdec_products(s, n) matches Result::Ok(r) ==> (0 <= r.1 <= s.len() && s.subrange(0, r.1)
            == enc_products(r.0) && wf_products(r.0) && (n >= 0 ==> r.0.len() == n)),
    decreases s.len(), 5nat, n,
{
    if sdec_products(s, n) is Ok {
        if n <= 0 {
            assert(s.subrange(0, 0) =~= Seq::<u8>::empty());
        } else {
            lemma_l2_product(s);
            let (p, k) = sdec_product(s)->Ok_0;
            lemma_l2_products(s.skip(k), n - 1);
            let (v, k2) = sdec_products(s.skip(k), n - 1)->Ok_0;
            assert(s.subrange(0, k + k2) =~= s.subrange(0, k) + s.skip(k).subrange(0, k2));
            assert((seq![p] + v)[0] == p);
            assert((seq![p] + v).drop_first() =~= v);
        }
    }
}

#[verifier::rlimit(100)]
#[verifier::spinoff_prover]
proof fn lemma_l2_opt_products(s: Seq<u8>)
    ensures
        sdec_opt_products(s) matches Result::Ok(r) ==> (1 <= r.1 <= s.len() && s.subrange(0, r.1)
            == enc_opt_products(r.0) && (r.0 matches Option::Some(v) ==> v.len() <= u64::MAX
            && wf_products(v))),
    decreases s.len(), 6nat, 0nat,
{
    if sdec_opt_products(s) is Ok {
        if s[0] == 0 {
            assert(s.subrange(0, 1) =~= seq![0u8]);
        } else {
            let n = le_bytes_to_u64(s.subrange(1, 9));
            lemma_l2_products(s.skip(9), n as int);
            let (v, k) = sdec_products(s.skip(9), n as int)->Ok_0;
            lemma_enc_u64_of_le_bytes(s.subrange(1, 9));
            assert(v.len() as u64 == n);
            assert(s.subrange(0, 9 + k) =~= seq![1u8] + s.subrange(1, 9) + s.skip(9).subrange(
                0,
                k,
            ));
        }
    }
}

#[verifier::rlimit(100)]
#[verifier::spinoff_prover]
proof fn lemma_l2_add_on(s: Seq<u8>)
    ensures
        sdec_add_on(s) matches Result::Ok(r) ==> (1 <= r.1 <= s.len() && s.subrange(0, r.1)
            == enc_add_on(r.0) && wf_add_on(r.0)),
    decreases s.len(), 3nat, 0nat,
{
    if sdec_add_on(s) is Ok {
        lemma_l2_text(s);
        let (name, k1) = sdec_text(s)->Ok_0;
        let s1 = s.skip(k1);
        lemma_l2_text(s1);
        let (desc, k2) = sdec_text(s1)->Ok_0;
        let j = k1 + k2;
        let s3 = s.skip(j + 16);
        lemma_l2_opt_product(s3);
        let (assoc, k3) = sdec_opt_product(s3)->Ok_0;
        lemma_enc_u64_of_le_bytes(s.subrange(j, j + 8));
        lemma_enc_u64_of_le_bytes(s.subrange(j + 8, j + 16));
        let k = j + 16 + k3;
        assert(s.subrange(0, k) =~= s.subrange(0, k1) + s1.subrange(0, k2) + s.subrange(j, j + 8)
            + s.subrange(j + 8, j + 16) + s3.subrange(0, k3));
        assert(s.subrange(0, k1) == enc_text(name));
        assert(s1.subrange(0, k2) == enc_text(desc));
        assert(s3.subrange(0, k3) == enc_opt_product(assoc));
    }
}

#[verifier::rlimit(100)]
#[verifier::spinoff_prover]
proof fn lemma_l2_add_ons(s: Seq<u8>, n: int)
    ensures
        sdec_add_ons(s, n) matches Result::Ok(r) ==> (0 <= r.1 <= s.len() && s.subrange(0, r.1)
            == enc_add_ons(r.0) && wf_add_ons(r.0) && (n >= 0 ==> r.0.len() == n)),
    decreases s.len(), 5nat, n,
{
    if sdec_add_ons(s, n) is Ok {
        if n <= 0 {
            assert(s.subrange(0, 0) =~= Seq::<u8>::empty());
        } else {
            lemma_l2_add_on(s);
            let (a, k) = sdec_add_on(s)->Ok_0;
            lemma_l2_add_ons(s.skip(k), n - 1);
            let (v, k2) = sdec_add_ons(s.skip(k), n - 1)->Ok_0;
            assert(s.subrange(0, k + k2) =~= s.subrange(0, k) + s.skip(k).subrange(0, k2));
            assert((seq![a] + v)[0] == a);
            assert((seq![a] + v).drop_first() =~= v);
        }
    }
}

#[verifier::rlimit(100)]
#[verifier::spinoff_prover]
proof fn lemma_l2_opt_add_ons(s: Seq<u8>)
    ensures
        sdec_opt_add_ons(s) matches Result::Ok(r) ==> (1 <= r.1 <= s.len() && s.subrange(0, r.1)
            == enc_opt_add_ons(r.0) && (r.0 matches Option::Some(v) ==> v.len() <= u64::MAX
            && wf_add_ons(v))),
    decreases s.len(), 6nat, 0nat,
{
    if sdec_opt_add_ons(s) is Ok {
        if s[0] == 0 {
            assert(s.subrange(0, 1) =~= seq![0u8]);
        } else {
            let n = le_bytes_to_u64(s.subrange(1, 9));
            lemma_l2_add_ons(s.skip(9), n as int);
            let (v, k) = sdec_add_ons(s.skip(9), n as int)->Ok_0;
            lemma_enc_u64_of_le_bytes(s.subrange(1, 9));
            assert(v.len() as u64 == n);
            assert(s.subrange(0, 9 + k) =~= seq![1u8] + s.subrange(1, 9) + s.skip(9).subrange(
                0,
                k,
            ));
        }
    }
}

#[verifier::rlimit(100)]
#[verifier::spinoff_prover]
proof fn lemma_l2_opt_product(s: Seq<u8>)
    ensures
        sdec_opt_product(s) matches Result::Ok(r) ==> (1 <= r.1 <= s.len() && s.subrange(0, r.1)
            == enc_opt_product(r.0) && (r.0 matches Option::Some(p) ==> wf_product(p))),
    decreases s.len(), 6nat, 0nat,
{
    if sdec_opt_product(s) is Ok {
        if s[0] == 0 {
            assert(s.subrange(0, 1) =~= seq![0u8]);
        } else {
            lemma_l2_product(s.skip(1));
            let (p, k) = sdec_product(s.skip(1))->Ok_0;
            assert(s.subrange(0, 1 + k) =~= seq![1u8] + s.skip(1).subrange(0, k));
        }
    }
}

#[verifier::rlimit(100)]
#[verifier::spinoff_prover]
proof fn lemma_l2_line_item(s: Seq<u8>)
    ensures
        sdec_line_item(s) matches Result::Ok(r) ==> (1 <= r.1 <= s.len() && s.subrange(0, r.1)
            == enc_line_item(r.0) && wf_product(r.0.0)),
    decreases s.len(), 5nat, 0nat,
{
    if sdec_line_item(s) is Ok {
        lemma_l2_product(s);
        let (p, k) = sdec_product(s)->Ok_0;
        lemma_enc_u64_of_le_bytes(s.subrange(k, k + 8));
        assert(s.subrange(0, k + 8) =~= s.subrange(0, k) + s.subrange(k, k + 8));
    }
}

#[verifier::rlimit(100)]
#[verifier::spinoff_prover]
proof fn lemma_l2_line_items(s: Seq<u8>, n: int)
    ensures
        sdec_line_items(s, n) matches Result::Ok(r) ==> (0 <= r.1 <= s.len() && s.subrange(0, r.1)
            == enc_line_items(r.0) && wf_line_items(r.0) && (n >= 0 ==> r.0.len() == n)),
    decreases s.len(), 6nat, n,
{
    if sdec_line_items(s, n) is Ok {
        if n <= 0 {
            assert(s.subrange(0, 0) =~= Seq::<u8>::empty());
        } else {
            lemma_l2_line_item(s);
            let (t, k) = sdec_line_item(s)->Ok_0;
            lemma_l2_line_items(s.skip(k), n - 1);
            let (v, k2) = sdec_line_items(s.skip(k), n - 1)->Ok_0;
            assert(s.subrange(0, k + k2) =~= s.subrange(0, k) + s.skip(k).subrange(0, k2));
            assert((seq![t] + v)[0] == t);
            assert((seq![t] + v).drop_first() =~= v);
        }
    }
}

#[verifier::rlimit(100)]
#[verifier::spinoff_prover]
proof fn lemma_l2_order(s: Seq<u8>)
    ensures
        sdec_order(s) matches Result::Ok(r) ==> (44 <= r.1 <= s.len() && s.subrange(0, r.1)
            == enc_order(r.0) && wf_order(r.0)),
    decreases s.len(), 7nat, 0nat,
{
    reveal(date_of);
    if sdec_order(s) is Ok {
        let n = le_bytes_to_u64(s.subrange(36, 44));
        let s1 = s.skip(44);
        lemma_l2_line_items(s1, n as int);
        let (products, k1) = sdec_line_items(s1, n as int)->Ok_0;
        let s2 = s.skip(44 + k1);
        lemma_l2_text(s2);
        let (notes, k2) = sdec_text(s2)->Ok_0;
        let d1 = date_of(s.subrange(0, 10));
        let d2 = date_of(s.subrange(10, 20));
        assert(enc_date(d1) =~= s.subrange(0, 10)) by {
            let b10 = s.subrange(0, 10);
            let by8 = b10.subrange(2, 10);
            lemma_enc_u64_of_le_bytes(by8);
            assert(enc_u64(d1.year) == by8);
            assert forall|i: int| 0 <= i < 10 implies enc_date(d1)[i] == b10[i] by {
                if i >= 2 {
                    assert(enc_date(d1)[i] == by8[i - 2]);
                    assert(by8[i - 2] == b10[i]);
                }
            }
        }
        assert(enc_date(d2) =~= s.subrange(10, 20)) by {
            let b10 = s.subrange(10, 20);
            let by8 = b10.subrange(2, 10);
            lemma_enc_u64_of_le_bytes(by8);
            assert(enc_u64(d2.year) == by8);
            assert forall|i: int| 0 <= i < 10 implies enc_date(d2)[i] == b10[i] by {
                if i >= 2 {
                    assert(enc_date(d2)[i] == by8[i - 2]);
                    assert(by8[i - 2] == b10[i]);
                }
            }
        }
        lemma_enc_u64_of_le_bytes(s.subrange(20, 28));
        lemma_enc_u64_of_le_bytes(s.subrange(28, 36));
        lemma_enc_u64_of_le_bytes(s.subrange(36, 44));
        assert(products.len() as u64 == n);
        let k = 44 + k1 + k2;
        assert(s.subrange(0, k) =~= s.subrange(0, 10) + s.subrange(10, 20) + s.subrange(20, 28)
            + s.subrange(28, 36) + s.subrange(36, 44) + s1.subrange(0, k1) + s2.subrange(0, k2));
        assert(s1.subrange(0, k1) == enc_line_items(products));
        assert(s2.subrange(0, k2) == enc_text(notes));
    }
}

#[verifier::rlimit(100)]
#[verifier::spinoff_prover]
proof fn lemma_l2_orders(s: Seq<u8>, n: int)
    ensures
        sdec_orders(s, n) matches Result::Ok(r) ==> (0 <= r.1 <= s.len() && s.subrange(0, r.1)
            == enc_orders(r.0) && wf_orders(r.0) && (n >= 0 ==> r.0.len() == n)),
    decreases s.len(), 8nat, n,
{
    if sdec_orders(s, n) is Ok {
        if n <= 0 {
            assert(s.subrange(0, 0) =~= Seq::<u8>::empty());
        } else {
            lemma_l2_order(s);
            let (o, k) = sdec_order(s)->Ok_0;
            lemma_l2_orders(s.skip(k), n - 1);
            let (v, k2) = sdec_orders(s.skip(k), n - 1)->Ok_0;
            assert(s.subrange(0, k + k2) =~= s.subrange(0, k) + s.skip(k).subrange(0, k2));
            assert((seq![o] + v)[0] == o);
            assert((seq![o] + v).drop_first() =~= v);
        }
    }
}

#[verifier::rlimit(100)]
#[verifier::spinoff_prover]
proof fn lemma_l2_store(s: Seq<u8>)
    ensures
        sdec_store(s) matches Result::Ok(r) ==> (8 <= r.1 <= s.len() && s.subrange(0, r.1)
            == enc_store(r.0) && wf_store(r.0)),
    decreases s.len(), 9nat, 0nat,
{
    if sdec_store(s) is Ok {
        let n = le_bytes_to_u64(s.subrange(0, 8));
        lemma_l2_orders(s.skip(8), n as int);
        let (v, k) = sdec_orders(s.skip(8), n as int)->Ok_0;
        lemma_enc_u64_of_le_bytes(s.subrange(0, 8));
        assert(v.len() as u64 == n);
        assert(s.subrange(0, 8 + k) =~= s.subrange(0, 8) + s.skip(8).subrange(0, k));
    }
}

proof fn lemma_l1_store(orders: Seq<OrderV>, rest: Seq<u8>)
    requires
        wf_store(orders),
    ensures
        sdec_store(enc_store(orders) + rest) == Result::<(Seq<OrderV>, int), DecodeError>::Ok(
            (orders, enc_store(orders).len() as int),
        ),
{
    let t = enc_store(orders) + rest;
    let cnt: u64 = orders.len() as u64;
    assert(t.subrange(0, 8) =~= enc_u64(cnt));
    lemma_le_bytes_of_enc_u64(cnt);
    assert(t.skip(8) =~= enc_orders(orders) + rest);
    lemma_l1_orders(orders, rest);
}

/// Truncation rejection: any strict prefix of a valid store encoding —
/// the empty stream included — is rejected by the stream decoder; no
/// prefix is ever mistaken for a complete store.
pub proof fn lemma_truncated_stream_rejected(orders: Seq<OrderV>, m: int)
    requires
        wf_store(orders),
        0 <= m < enc_store(orders).len(),
    ensures
        sdec_stream(enc_store(orders).subrange(0, m)) is Err,
{
    let e = enc_store(orders);
    let s = e.subrange(0, m);
    match sdec_store(s) {
        Result::Err(_) => {},
        Result::Ok((v, k)) => {
            if k == s.len() {
                lemma_l2_store(s);
                assert(s.subrange(0, m) =~= s);
                assert(e =~= enc_store(v) + e.skip(m));
                lemma_l1_store(v, e.skip(m));
                lemma_l1_store(orders, Seq::empty());
                assert(e =~= enc_store(orders) + Seq::<u8>::empty());
                assert(m == e.len());
            }
        },
    }
}

} // verus!
