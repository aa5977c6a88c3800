//! The data model: calendar dates, add-ons, products and orders, together
//! with the mathematical views the codec contracts are stated over.
//!
//! Prices are integers in currency minor units. The model deliberately
//! enforces no arithmetic relationship between a product's base price, its
//! sticker price, the prices of its add-ons or sub-items, nor between an
//! order's subtotal, total and line-item paid amounts: bundle pricing may
//! diverge from itemized pricing, and inconsistent entries are stored
//! verbatim.

use vstd::prelude::*;

verus! {

/// A calendar date as entered. No calendar validity is enforced: any
/// month/day/year combination is stored verbatim (rejecting zero fields is
/// the input provider's job, not the model's).
#[derive(Clone, Copy, PartialEq, Eq, Structural, Debug)]
pub struct Date {
    pub month: u8,
    pub day: u8,
    pub year: u64,
}

/// An add-on to a product. `sticker_price` and `actual_price` describe the
/// add-on itself (before and after its own discount), never the price of the
/// associated product. An add-on may own at most one associated product.
#[derive(Debug)]
pub struct AddOn {
    pub name: String,
    pub desc: String,
    pub sticker_price: u64,
    pub actual_price: u64,
    pub assoc_product: Option<Product>,
}

/// A product. `base_price` excludes add-ons; `sticker_price` includes
/// add-ons but excludes sale discounts. `items` and `add_ons` are genuinely
/// optional: "absent" and "present with zero elements" are distinct states
/// and round-trip distinguishably. A product exclusively owns its sub-items
/// and add-ons (a strict tree, no sharing).
#[derive(Debug)]
pub struct Product {
    pub name: String,
    pub desc: String,
    pub base_price: u64,
    pub sticker_price: u64,
    pub items: Option<Vec<Product>>,
    pub add_ons: Option<Vec<AddOn>>,
}

/// One purchase order: its two dates, the subtotal (after order-level
/// discounts, before shipping and tax), the total actually paid, the ordered
/// line items — each a product paired with the minor-unit amount actually
/// paid for that line — and free-form notes.
#[derive(Debug)]
pub struct Order {
    pub date_placed: Date,
    pub date_shipped: Date,
    pub subtotal: u64,
    pub total: u64,
    pub products: Vec<(Product, u64)>,
    pub notes: String,
}

/// Mathematical view of an [`AddOn`]: text as character sequences.
pub struct AddOnV {
    pub name: Seq<char>,
    pub desc: Seq<char>,
    pub sticker_price: u64,
    pub actual_price: u64,
    pub assoc_product: Option<ProductV>,
}

/// Mathematical view of a [`Product`].
pub struct ProductV {
    pub name: Seq<char>,
    pub desc: Seq<char>,
    pub base_price: u64,
    pub sticker_price: u64,
    pub items: Option<Seq<ProductV>>,
    pub add_ons: Option<Seq<AddOnV>>,
}

/// Mathematical view of an [`Order`].
pub struct OrderV {
    pub date_placed: Date,
    pub date_shipped: Date,
    pub subtotal: u64,
    pub total: u64,
    pub products: Seq<(ProductV, u64)>,
    pub notes: Seq<char>,
}

pub open spec fn product_view(p: Product) -> ProductV
    decreases p, 0nat,
{
    ProductV {
        name: p.name@,
        desc: p.desc@,
        base_price: p.base_price,
        sticker_price: p.sticker_price,
        items: opt_products_view(p.items),
        add_ons: opt_add_ons_view(p.add_ons),
    }
}

pub open spec fn opt_products_view(o: Option<Vec<Product>>) -> Option<Seq<ProductV>>
    decreases o, 2nat,
{
    match o {
        Option::Some(v) => Option::Some(products_view(v@)),
        Option::None => Option::None,
    }
}

pub open spec fn opt_add_ons_view(o: Option<Vec<AddOn>>) -> Option<Seq<AddOnV>>
    decreases o, 2nat,
{
    match o {
        Option::Some(v) => Option::Some(add_ons_view(v@)),
        Option::None => Option::None,
    }
}

pub open spec fn opt_product_view(o: Option<Product>) -> Option<ProductV>
    decreases o, 2nat,
{
    match o {
        Option::Some(p) => Option::Some(product_view(p)),
        Option::None => Option::None,
    }
}

pub open spec fn products_view(s: Seq<Product>) -> Seq<ProductV>
    decreases s, 1nat,
{
    Seq::new(
        s.len(),
        (|i: int|
            if 0 <= i < s.len() {
                product_view(s[i])
            } else {
                arbitrary()
            }),
    )
}

pub open spec fn add_on_view(a: AddOn) -> AddOnV
    decreases a, 0nat,
{
    AddOnV {
        name: a.name@,
        desc: a.desc@,
        sticker_price: a.sticker_price,
        actual_price: a.actual_price,
        assoc_product: opt_product_view(a.assoc_product),
    }
}

pub open spec fn add_ons_view(s: Seq<AddOn>) -> Seq<AddOnV>
    decreases s, 1nat,
{
    Seq::new(
        s.len(),
        (|i: int|
            if 0 <= i < s.len() {
                add_on_view(s[i])
            } else {
                arbitrary()
            }),
    )
}

pub open spec fn line_items_view(s: Seq<(Product, u64)>) -> Seq<(ProductV, u64)> {
    Seq::new(
        s.len(),
        (|i: int|
            if 0 <= i < s.len() {
                (product_view(s[i].0), s[i].1)
            } else {
                arbitrary()
            }),
    )
}

pub open spec fn order_view(o: Order) -> OrderV {
    OrderV {
        date_placed: o.date_placed,
        date_shipped: o.date_shipped,
        subtotal: o.subtotal,
        total: o.total,
        products: line_items_view(o.products@),
        notes: o.notes@,
    }
}

pub open spec fn orders_view(s: Seq<Order>) -> Seq<OrderV> {
    Seq::new(
        s.len(),
        (|i: int|
            if 0 <= i < s.len() {
                order_view(s[i])
            } else {
                arbitrary()
            }),
    )
}

} // verus!
