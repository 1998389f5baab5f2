use vstd::prelude::*;

verus! {

/// The mathematical content of a `Product` record.
pub ghost struct ProductModel {
    pub product_id: u64,
    pub title: Seq<char>,
    pub timestamp: Seq<char>,
}

/// The one domain entity: a fully built, immutable record of a product
/// page visit. All three fields are populated at construction.
pub struct Product {
    /// Caller-supplied identifier; never validated for existence.
    pub product_id: u64,
    /// The trimmed title element text, or the sentinel "Unknown Title".
    pub title: String,
    /// The record-creation instant, rendered per RFC 3339.
    pub timestamp: String,
}

impl View for Product {
    type V = ProductModel;

    open spec fn view(&self) -> ProductModel {
        ProductModel {
            product_id: self.product_id,
            title: self.title@,
            timestamp: self.timestamp@,
        }
    }
}

} // verus!
