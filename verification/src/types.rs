//! The ledger's row types, request types, and error taxonomy.

use vstd::prelude::*;

verus! {

/// Why an operation was rejected. Every rejection leaves the ledger exactly
/// as it was before the call.
#[derive(Clone, Copy, Debug, PartialEq, Eq, Structural)]
pub enum LedgerError {
    /// A referenced product, supplier, customer, owner, sale, expense or
    /// notification is absent.
    NotFound,
    /// A sale asks for more units of a product than its current stock holds.
    InsufficientStock,
    /// The total supplied with a sale differs from the sum of price times
    /// quantity re-derived from the current product prices.
    InvalidSaleTotal,
    /// A share set that must be fully allocated does not sum to exactly 100.
    InvalidShareSum,
    /// The sale was already settled; settlement is irreversible.
    AlreadyPaid,
    /// A uniqueness, range, restrict-delete or arithmetic-range rule was
    /// violated.
    ConstraintViolation,
}

/// How a purchase, sale or expense was paid.
#[derive(Clone, Copy, Debug, PartialEq, Eq, Structural)]
pub enum PaymentMethod {
    Cash,
    Transfer,
    Account,
    Debit,
    Credit,
}

/// The entity a set of ownership shares is attached to.
#[derive(Clone, Copy, Debug, PartialEq, Eq, Structural)]
pub enum EntityRef {
    Product(u64),
    Expense(u64),
}

/// A product: master data plus the stock counter owned by the inventory
/// engine. Prices and amounts are integer currency units (cents).
#[derive(Clone, Debug)]
pub struct Product {
    pub id: u64,
    pub name: String,
    pub category: String,
    /// Current unit price, in cents.
    pub price: u64,
    /// Current stock quantity; only the inventory engine writes it.
    pub stock: u64,
    /// The stock quantity the product was created with. Every later change
    /// is accounted for by a committed purchase or sale row.
    pub opening_stock: u64,
    /// Stock at or below this bound is low; crossing it emits a notification.
    pub low_stock_threshold: u64,
}

/// A supplier of purchases.
#[derive(Clone, Debug)]
pub struct Supplier {
    pub id: u64,
    pub name: String,
    pub phone: Option<String>,
    pub address: Option<String>,
}

/// A customer of sales.
#[derive(Clone, Debug)]
pub struct Customer {
    pub id: u64,
    pub name: String,
    pub phone: Option<String>,
}

/// An owner among whom proceeds and costs are split.
#[derive(Clone, Debug)]
pub struct Owner {
    pub id: u64,
    pub name: String,
    pub alias: Option<String>,
}

/// A committed purchase: immutable once recorded, except that deleting its
/// supplier nulls the supplier reference.
#[derive(Clone, Copy, Debug)]
pub struct Purchase {
    pub id: u64,
    pub product_id: u64,
    pub supplier_id: Option<u64>,
    pub created_at: u64,
    pub quantity: u64,
    /// quantity times the unit cost at the time of purchase, in cents.
    pub total: u64,
    pub payment_method: PaymentMethod,
}

/// A committed sale: immutable once recorded, except for the settlement
/// timestamp and a supplier-style nulling of the customer reference.
#[derive(Clone, Copy, Debug)]
pub struct Sale {
    pub id: u64,
    pub customer_id: Option<u64>,
    pub created_at: u64,
    /// Sum of price times quantity over the sale's line items, in cents.
    pub total: u64,
    pub payment_method: PaymentMethod,
    /// Settlement timestamp; the sale is paid exactly when this is set.
    pub paid_at: Option<u64>,
}

/// One line of a sale. The price is captured at sale time and never
/// recomputed from the current product price.
#[derive(Clone, Copy, Debug)]
pub struct SaleItem {
    pub sale_id: u64,
    pub product_id: u64,
    /// Unit price at the time of sale, in cents.
    pub price: u64,
    pub quantity: u64,
}

/// A committed expense: immutable once recorded.
#[derive(Clone, Debug)]
pub struct Expense {
    pub id: u64,
    pub created_at: u64,
    pub category: String,
    /// Amount in cents.
    pub amount: u64,
    pub description: Option<String>,
    pub payment_method: PaymentMethod,
}

/// One ownership share: a percentage claim by an owner over a product's
/// proceeds or an expense's cost.
#[derive(Clone, Copy, Debug)]
pub struct ShareRow {
    pub entity: EntityRef,
    pub owner_id: u64,
    /// Whole percentage points, between 0 and 100.
    pub percentage: u64,
}

/// An advisory notification surfaced to the presentation layer.
#[derive(Clone, Debug)]
pub struct Notification {
    pub id: u64,
    pub created_at: u64,
    pub title: String,
    pub message: String,
    /// The row the notification points at: a product for low stock, a sale
    /// for an aged unpaid balance.
    pub target: u64,
    /// Read timestamp; the notification is read exactly when this is set.
    pub read_at: Option<u64>,
}

/// One requested line of a sale, as handed in by the caller.
#[derive(Clone, Copy, Debug, PartialEq, Eq, Structural)]
pub struct ItemReq {
    pub product_id: u64,
    pub quantity: u64,
}

/// One requested ownership share, as handed in by the caller.
#[derive(Clone, Copy, Debug, PartialEq, Eq, Structural)]
pub struct ShareReq {
    pub owner_id: u64,
    pub percentage: u64,
}

/// One owner's part of a distributed amount.
#[derive(Clone, Copy, Debug, PartialEq, Eq, Structural)]
pub struct OwnerAmount {
    pub owner_id: u64,
    /// Amount in cents.
    pub amount: u64,
}

impl Sale {
    /// A sale is paid exactly when its settlement timestamp is set.
    pub open spec fn is_paid(self) -> bool {
        self.paid_at is Some
    }
}

impl Notification {
    /// A notification is read exactly when its read timestamp is set.
    pub open spec fn is_read(self) -> bool {
        self.read_at is Some
    }
}

} // verus!
