//! The in-memory store: a product catalog, append-only purchase and sale
//! ledgers, managers with hashed credentials, and monotonic id counters.

use crate::clock::now_timestamp;
use crate::hashing::{hash_password, password_digest};
use crate::StoreError;
use vstd::prelude::*;

verus! {

#[derive(Debug)]
pub struct Product {
    pub id: u32,
    pub name: String,
    pub description: String,
    /// Unit price in cents.
    pub price: u32,
    /// Units on hand.
    pub quantity: u32,
}

#[derive(Debug, Clone, Copy)]
pub struct Sale {
    pub id: u32,
    pub product_id: u32,
    pub quantity: u32,
    /// Unit sale price in cents.
    pub sale_price: u32,
    /// Seconds of the wall clock when the sale was recorded.
    pub time: u64,
}

#[derive(Debug, Clone, Copy)]
pub struct Purchase {
    pub id: u32,
    pub product_id: u32,
    pub quantity: u32,
    /// Unit purchase price in cents.
    pub purchase_price: u32,
    /// Seconds of the wall clock when the purchase was recorded.
    pub time: u64,
}

#[derive(Debug)]
pub struct Manager {
    pub username: String,
    /// Lowercase hex SHA-256 digest of the password.
    pub password_hash: String,
}

#[derive(Debug)]
pub struct Store {
    pub products: Vec<Product>,
    pub sales: Vec<Sale>,
    pub purchases: Vec<Purchase>,
    pub managers: Vec<Manager>,
    pub next_product_id: u32,
    pub next_sale_id: u32,
    pub next_purchase_id: u32,
}

pub ghost struct ProductV {
    pub id: u32,
    pub name: Seq<char>,
    pub description: Seq<char>,
    pub price: u32,
    pub quantity: u32,
}

pub ghost struct ManagerV {
    pub username: Seq<char>,
    pub password_hash: Seq<char>,
}

pub ghost struct StoreV {
    pub products: Seq<ProductV>,
    pub sales: Seq<Sale>,
    pub purchases: Seq<Purchase>,
    pub managers: Seq<ManagerV>,
    pub next_product_id: u32,
    pub next_sale_id: u32,
    pub next_purchase_id: u32,
}

impl View for Product {
    type V = ProductV;

    open spec fn view(&self) -> ProductV {
        ProductV {
            id: self.id,
            name: self.name@,
            description: self.description@,
            price: self.price,
            quantity: self.quantity,
        }
    }
}

impl View for Manager {
    type V = ManagerV;

    open spec fn view(&self) -> ManagerV {
        ManagerV { username: self.username@, password_hash: self.password_hash@ }
    }
}

/// The views of a sequence of products, element by element.
pub open spec fn product_views(ps: Seq<Product>) -> Seq<ProductV> {
    Seq::new(ps.len(), |i: int| ps[i]@)
}

/// The views of a sequence of managers, element by element.
pub open spec fn manager_views(ms: Seq<Manager>) -> Seq<ManagerV> {
    Seq::new(ms.len(), |i: int| ms[i]@)
}

impl View for Store {
    type V = StoreV;

    open spec fn view(&self) -> StoreV {
        StoreV {
            products: product_views(self.products@),
            sales: self.sales@,
            purchases: self.purchases@,
            managers: manager_views(self.managers@),
            next_product_id: self.next_product_id,
            next_sale_id: self.next_sale_id,
            next_purchase_id: self.next_purchase_id,
        }
    }
}

impl Clone for Product {
    fn clone(&self) -> (r: Self)
        ensures
            r@ == self@,
    {
        Product {
            id: self.id,
            name: self.name.clone(),
            description: self.description.clone(),
            price: self.price,
            quantity: self.quantity,
        }
    }
}

impl Clone for Manager {
    fn clone(&self) -> (r: Self)
        ensures
            r@ == self@,
    {
        Manager { username: self.username.clone(), password_hash: self.password_hash.clone() }
    }
}

/// The index of the first product with the given id, or -1.
pub open spec fn find_index(s: Seq<ProductV>, id: u32) -> int
    decreases s.len(),
{
    if s.len() == 0 {
        -1
    } else if s[0].id == id {
        0
    } else {
        let r = find_index(s.skip(1), id);
        if r < 0 {
            -1
        } else {
            r + 1
        }
    }
}

pub proof fn lemma_find_index(s: Seq<ProductV>, id: u32)
    ensures
        -1 <= find_index(s, id) < s.len(),
        find_index(s, id) >= 0 ==> s[find_index(s, id)].id == id,
        forall|k: int| 0 <= k < find_index(s, id) ==> (#[trigger] s[k]).id != id,
        find_index(s, id) == -1 ==> forall|k: int|
            0 <= k < s.len() ==> (#[trigger] s[k]).id != id,
    decreases s.len(),
{
    if s.len() > 0 && s[0].id != id {
        lemma_find_index(s.skip(1), id);
        assert forall|k: int| 0 <= k < find_index(s, id) implies (#[trigger] s[k]).id != id by {
            if k > 0 {
                assert(s[k] == s.skip(1)[k - 1]);
            }
        }
        if find_index(s, id) == -1 {
            assert forall|k: int| 0 <= k < s.len() implies (#[trigger] s[k]).id != id by {
                if k > 0 {
                    assert(s[k] == s.skip(1)[k - 1]);
                }
            }
        }
    }
}

impl StoreV {
    /// The invariants of a store: ids in each collection strictly increase
    /// in creation order and stay below the corresponding counter, the
    /// counters are at least 1, and every ledger entry has a positive
    /// quantity.
    pub open spec fn wf(self) -> bool {
        &&& self.next_product_id >= 1
        &&& self.next_sale_id >= 1
        &&& self.next_purchase_id >= 1
        &&& forall|i: int, j: int|
            0 <= i < j < self.products.len() ==> (#[trigger] self.products[i]).id < (
            #[trigger] self.products[j]).id
        &&& forall|i: int|
            0 <= i < self.products.len() ==> (#[trigger] self.products[i]).id
                < self.next_product_id
        &&& forall|i: int, j: int|
            0 <= i < j < self.sales.len() ==> (#[trigger] self.sales[i]).id < (
            #[trigger] self.sales[j]).id
        &&& forall|i: int|
            0 <= i < self.sales.len() ==> (#[trigger] self.sales[i]).id < self.next_sale_id
        &&& forall|i: int, j: int|
            0 <= i < j < self.purchases.len() ==> (#[trigger] self.purchases[i]).id < (
            #[trigger] self.purchases[j]).id
        &&& forall|i: int|
            0 <= i < self.purchases.len() ==> (#[trigger] self.purchases[i]).id
                < self.next_purchase_id
        &&& forall|i: int| 0 <= i < self.sales.len() ==> (#[trigger] self.sales[i]).quantity >= 1
        &&& forall|i: int|
            0 <= i < self.purchases.len() ==> (#[trigger] self.purchases[i]).quantity >= 1
    }
}

/// The state of a freshly constructed store: empty collections, counters
/// at 1, and the single default manager.
pub open spec fn initial_store() -> StoreV {
    StoreV {
        products: Seq::empty(),
        sales: Seq::empty(),
        purchases: Seq::empty(),
        managers: seq![
            ManagerV { username: "admin"@, password_hash: password_digest("password"@) },
        ],
        next_product_id: 1,
        next_sale_id: 1,
        next_purchase_id: 1,
    }
}

impl Store {
    /// A fresh store seeded with the default manager.
    pub fn new() -> (s: Store)
        ensures
            s@ == initial_store(),
            s@.wf(),
    {
        let mut managers: Vec<Manager> = Vec::new();
        let default_hash = hash_password("password");
        managers.push(Manager { username: String::from_str("admin"), password_hash: default_hash });
        let s = Store {
            products: Vec::new(),
            sales: Vec::new(),
            purchases: Vec::new(),
            managers,
            next_product_id: 1,
            next_sale_id: 1,
            next_purchase_id: 1,
        };
        proof {
            assert(s@.products =~= initial_store().products);
            assert(s@.sales =~= initial_store().sales);
            assert(s@.purchases =~= initial_store().purchases);
            assert(s@.managers =~= initial_store().managers);
        }
        s
    }

    /// The index of the first product with the given id, if any.
    fn find_idx(&self, id: u32) -> (r: Option<usize>)
        ensures
            match r {
                Some(i) => i == find_index(self@.products, id) && i < self@.products.len()
                    && self@.products[i as int].id == id,
                None => find_index(self@.products, id) == -1,
            },
    {
        proof {
            lemma_find_index(self@.products, id);
        }
        let mut i: usize = 0;
        while i < self.products.len()
            invariant
                0 <= i <= self@.products.len(),
                forall|k: int| 0 <= k < i ==> (#[trigger] self@.products[k]).id != id,
            decreases self@.products.len() - i,
        {
            if self.products[i].id == id {
                proof {
                    lemma_find_index(self@.products, id);
                    let ps = self@.products;
                    let fi = find_index(ps, id);
                    assert(ps[i as int].id == id);
                    if 0 <= fi < i as int {
                        assert(ps[fi].id != id);
                    }
                    if fi > i as int {
                        assert(ps[i as int].id != id);
                    }
                }
                return Some(i);
            }
            i = i + 1;
        }
        None
    }

    /// Looks a product up by id; read-only.
    pub fn find_product(&self, id: u32) -> (r: Option<&Product>)
        ensures
            match r {
                Some(p) => find_index(self@.products, id) >= 0 && p@ == self@.products[find_index(
                    self@.products,
                    id,
                )],
                None => find_index(self@.products, id) == -1,
            },
    {
        match self.find_idx(id) {
            Some(i) => Some(&self.products[i]),
            None => None,
        }
    }

    /// Creates a product under the next product id; always succeeds.
    pub fn add_product(
        &mut self,
        name: String,
        description: String,
        price: u32,
        quantity: u32,
    ) -> (p: Product)
        requires
            old(self)@.wf(),
            old(self)@.next_product_id < u32::MAX,
        ensures
            final(self)@.wf(),
            p@ == (ProductV {
                id: old(self)@.next_product_id,
                name: name@,
                description: description@,
                price,
                quantity,
            }),
            final(self)@.products == old(self)@.products.push(p@),
            final(self)@.next_product_id == old(self)@.next_product_id + 1,
            final(self)@.sales == old(self)@.sales,
            final(self)@.purchases == old(self)@.purchases,
            final(self)@.managers == old(self)@.managers,
            final(self)@.next_sale_id == old(self)@.next_sale_id,
            final(self)@.next_purchase_id == old(self)@.next_purchase_id,
    {
        let p = Product { id: self.next_product_id, name, description, price, quantity };
        let copy = p.clone();
        self.next_product_id = self.next_product_id + 1;
        self.products.push(p);
        proof {
            assert(final(self)@.products =~= old(self)@.products.push(copy@));
            assert(final(self)@.sales =~= old(self)@.sales);
            assert(final(self)@.purchases =~= old(self)@.purchases);
            assert(final(self)@.managers =~= old(self)@.managers);
        }
        copy
    }

    /// Overwrites just the supplied fields of a product; the id never
    /// changes.
    pub fn edit_product(
        &mut self,
        id: u32,
        name: Option<String>,
        description: Option<String>,
        price: Option<u32>,
        quantity: Option<u32>,
    ) -> (r: Result<Product, StoreError>)
        requires
            old(self)@.wf(),
        ensures
            final(self)@.wf(),
            find_index(old(self)@.products, id) == -1 ==> r == Err::<Product, StoreError>(
                StoreError::NotFound,
            ) && final(self)@ == old(self)@,
            find_index(old(self)@.products, id) >= 0 ==> {
                let idx = find_index(old(self)@.products, id);
                let updated = spec_edit_fields(
                    old(self)@.products[idx],
                    name.deep_view(),
                    description.deep_view(),
                    price,
                    quantity,
                );
                &&& r matches Ok(p) && p@ == updated
                &&& final(self)@ == (StoreV {
                    products: old(self)@.products.update(idx, updated),
                    ..old(self)@
                })
            },
    {
        let i = match self.find_idx(id) {
            Some(i) => i,
            None => {
                return Err(StoreError::NotFound);
            },
        };
        proof {
            lemma_find_index(self@.products, id);
        }
        let mut p = self.products[i].clone();
        if let Some(n) = name {
            p.name = n;
        }
        if let Some(d) = description {
            p.description = d;
        }
        if let Some(pr) = price {
            p.price = pr;
        }
        if let Some(q) = quantity {
            p.quantity = q;
        }
        let copy = p.clone();
        self.products[i] = p;
        proof {
            let idx = i as int;
            assert(final(self)@.products =~= old(self)@.products.update(idx, copy@));
            assert(final(self)@.sales =~= old(self)@.sales);
            assert(final(self)@.purchases =~= old(self)@.purchases);
            assert(final(self)@.managers =~= old(self)@.managers);
        }
        Ok(copy)
    }

    /// Removes a product; historical ledger entries are left alone.
    pub fn delete_product(&mut self, id: u32) -> (r: Result<(), StoreError>)
        requires
            old(self)@.wf(),
        ensures
            final(self)@.wf(),
            find_index(old(self)@.products, id) == -1 ==> r == Err::<(), StoreError>(
                StoreError::NotFound,
            ) && final(self)@ == old(self)@,
            find_index(old(self)@.products, id) >= 0 ==> {
                &&& r == Ok::<(), StoreError>(())
                &&& final(self)@ == (StoreV {
                    products: old(self)@.products.remove(find_index(old(self)@.products, id)),
                    ..old(self)@
                })
            },
    {
        let i = match self.find_idx(id) {
            Some(i) => i,
            None => {
                return Err(StoreError::NotFound);
            },
        };
        self.products.remove(i);
        proof {
            let idx = i as int;
            assert(final(self)@.products =~= old(self)@.products.remove(idx));
            assert(final(self)@.sales =~= old(self)@.sales);
            assert(final(self)@.purchases =~= old(self)@.purchases);
            assert(final(self)@.managers =~= old(self)@.managers);
        }
        Ok(())
    }
}

impl Store {
    /// Records a purchase at a given clock reading: adds the quantity to
    /// the product's stock and appends one immutable ledger entry.
    pub fn record_purchase_at(
        &mut self,
        product_id: u32,
        quantity: u32,
        unit_price: u32,
        time: u64,
    ) -> (r: Result<Purchase, StoreError>)
        requires
            old(self)@.wf(),
            old(self)@.next_purchase_id < u32::MAX,
            find_index(old(self)@.products, product_id) >= 0 ==> old(self)@.products[find_index(
                old(self)@.products,
                product_id,
            )].quantity + quantity <= u32::MAX,
        ensures
            final(self)@.wf(),
            quantity == 0 ==> r == Err::<Purchase, StoreError>(StoreError::InvalidInput) && final(self)@ == old(self)@,
            quantity >= 1 && find_index(old(self)@.products, product_id) == -1 ==> r == Err::<
                Purchase,
                StoreError,
            >(StoreError::NotFound) && final(self)@ == old(self)@,
            quantity >= 1 && find_index(old(self)@.products, product_id) >= 0 ==> {
                let idx = find_index(old(self)@.products, product_id);
                let prod = old(self)@.products[idx];
                let pur = Purchase {
                    id: old(self)@.next_purchase_id,
                    product_id,
                    quantity,
                    purchase_price: unit_price,
                    time,
                };
                &&& r == Ok::<Purchase, StoreError>(pur)
                &&& final(self)@ == (StoreV {
                    products: old(self)@.products.update(
                        idx,
                        ProductV { quantity: (prod.quantity + quantity) as u32, ..prod },
                    ),
                    purchases: old(self)@.purchases.push(pur),
                    next_purchase_id: (old(self)@.next_purchase_id + 1) as u32,
                    ..old(self)@
                })
            },
    {
        if quantity == 0 {
            return Err(StoreError::InvalidInput);
        }
        let i = match self.find_idx(product_id) {
            Some(i) => i,
            None => {
                return Err(StoreError::NotFound);
            },
        };
        let mut p = self.products[i].clone();
        p.quantity = p.quantity + quantity;
        self.products[i] = p;
        let pur = Purchase {
            id: self.next_purchase_id,
            product_id,
            quantity,
            purchase_price: unit_price,
            time,
        };
        self.next_purchase_id = self.next_purchase_id + 1;
        self.purchases.push(pur);
        proof {
            let idx = i as int;
            let prod = old(self)@.products[idx];
            assert(final(self)@.products =~= old(self)@.products.update(
                idx,
                ProductV { quantity: (prod.quantity + quantity) as u32, ..prod },
            ));
            assert(final(self)@.purchases =~= old(self)@.purchases.push(pur));
            assert(final(self)@.sales =~= old(self)@.sales);
            assert(final(self)@.managers =~= old(self)@.managers);
        }
        Ok(pur)
    }

    /// Records a purchase at the current wall clock.
    pub fn record_purchase(&mut self, product_id: u32, quantity: u32, unit_price: u32) -> (r:
        Result<Purchase, StoreError>)
        requires
            old(self)@.wf(),
            old(self)@.next_purchase_id < u32::MAX,
            find_index(old(self)@.products, product_id) >= 0 ==> old(self)@.products[find_index(
                old(self)@.products,
                product_id,
            )].quantity + quantity <= u32::MAX,
        ensures
            final(self)@.wf(),
            quantity == 0 ==> r == Err::<Purchase, StoreError>(StoreError::InvalidInput) && final(self)@ == old(self)@,
            quantity >= 1 && find_index(old(self)@.products, product_id) == -1 ==> r == Err::<
                Purchase,
                StoreError,
            >(StoreError::NotFound) && final(self)@ == old(self)@,
            quantity >= 1 && find_index(old(self)@.products, product_id) >= 0 ==> {
                let idx = find_index(old(self)@.products, product_id);
                let prod = old(self)@.products[idx];
                &&& r matches Ok(pur)
                &&& r matches Ok(pur) ==> {
                    &&& pur.id == old(self)@.next_purchase_id
                    &&& pur.product_id == product_id
                    &&& pur.quantity == quantity
                    &&& pur.purchase_price == unit_price
                    &&& final(self)@ == (StoreV {
                        products: old(self)@.products.update(
                            idx,
                            ProductV { quantity: (prod.quantity + quantity) as u32, ..prod },
                        ),
                        purchases: old(self)@.purchases.push(pur),
                        next_purchase_id: (old(self)@.next_purchase_id + 1) as u32,
                        ..old(self)@
                    })
                }
            },
    {
        let time = now_timestamp();
        self.record_purchase_at(product_id, quantity, unit_price, time)
    }

    /// Records a sale at a given clock reading: takes the quantity out of
    /// stock, never below zero, and appends one immutable ledger entry.
    pub fn record_sale_at(
        &mut self,
        product_id: u32,
        quantity: u32,
        unit_price: u32,
        time: u64,
    ) -> (r: Result<Sale, StoreError>)
        requires
            old(self)@.wf(),
            old(self)@.next_sale_id < u32::MAX,
        ensures
            final(self)@.wf(),
            quantity == 0 ==> r == Err::<Sale, StoreError>(StoreError::InvalidInput) && final(self)@ == old(self)@,
            quantity >= 1 && find_index(old(self)@.products, product_id) == -1 ==> r == Err::<
                Sale,
                StoreError,
            >(StoreError::NotFound) && final(self)@ == old(self)@,
            quantity >= 1 && find_index(old(self)@.products, product_id) >= 0 && old(self)@.products[find_index(old(self)@.products, product_id)].quantity < quantity ==> r
                == Err::<Sale, StoreError>(StoreError::InsufficientStock) && final(self)@ == old(self)@,
            quantity >= 1 && find_index(old(self)@.products, product_id) >= 0 && old(self)@.products[find_index(old(self)@.products, product_id)].quantity >= quantity ==> {
                let idx = find_index(old(self)@.products, product_id);
                let prod = old(self)@.products[idx];
                let sale = Sale {
                    id: old(self)@.next_sale_id,
                    product_id,
                    quantity,
                    sale_price: unit_price,
                    time,
                };
                &&& r == Ok::<Sale, StoreError>(sale)
                &&& final(self)@ == (StoreV {
                    products: old(self)@.products.update(
                        idx,
                        ProductV { quantity: (prod.quantity - quantity) as u32, ..prod },
                    ),
                    sales: old(self)@.sales.push(sale),
                    next_sale_id: (old(self)@.next_sale_id + 1) as u32,
                    ..old(self)@
                })
            },
    {
        if quantity == 0 {
            return Err(StoreError::InvalidInput);
        }
        let i = match self.find_idx(product_id) {
            Some(i) => i,
            None => {
                return Err(StoreError::NotFound);
            },
        };
        let mut p = self.products[i].clone();
        if p.quantity < quantity {
            return Err(StoreError::InsufficientStock);
        }
        p.quantity = p.quantity - quantity;
        self.products[i] = p;
        let sale = Sale {
            id: self.next_sale_id,
            product_id,
            quantity,
            sale_price: unit_price,
            time,
        };
        self.next_sale_id = self.next_sale_id + 1;
        self.sales.push(sale);
        proof {
            let idx = i as int;
            let prod = old(self)@.products[idx];
            assert(final(self)@.products =~= old(self)@.products.update(
                idx,
                ProductV { quantity: (prod.quantity - quantity) as u32, ..prod },
            ));
            assert(final(self)@.sales =~= old(self)@.sales.push(sale));
            assert(final(self)@.purchases =~= old(self)@.purchases);
            assert(final(self)@.managers =~= old(self)@.managers);
        }
        Ok(sale)
    }

    /// Records a sale at the current wall clock.
    pub fn record_sale(&mut self, product_id: u32, quantity: u32, unit_price: u32) -> (r: Result<
        Sale,
        StoreError,
    >)
        requires
            old(self)@.wf(),
            old(self)@.next_sale_id < u32::MAX,
        ensures
            final(self)@.wf(),
            quantity == 0 ==> r == Err::<Sale, StoreError>(StoreError::InvalidInput) && final(self)@ == old(self)@,
            quantity >= 1 && find_index(old(self)@.products, product_id) == -1 ==> r == Err::<
                Sale,
                StoreError,
            >(StoreError::NotFound) && final(self)@ == old(self)@,
            quantity >= 1 && find_index(old(self)@.products, product_id) >= 0 && old(self)@.products[find_index(old(self)@.products, product_id)].quantity < quantity ==> r
                == Err::<Sale, StoreError>(StoreError::InsufficientStock) && final(self)@ == old(self)@,
            quantity >= 1 && find_index(old(self)@.products, product_id) >= 0 && old(self)@.products[find_index(old(self)@.products, product_id)].quantity >= quantity ==> {
                let idx = find_index(old(self)@.products, product_id);
                let prod = old(self)@.products[idx];
                &&& r matches Ok(sale)
                &&& r matches Ok(sale) ==> {
                    &&& sale.id == old(self)@.next_sale_id
                    &&& sale.product_id == product_id
                    &&& sale.quantity == quantity
                    &&& sale.sale_price == unit_price
                    &&& final(self)@ == (StoreV {
                        products: old(self)@.products.update(
                            idx,
                            ProductV { quantity: (prod.quantity - quantity) as u32, ..prod },
                        ),
                        sales: old(self)@.sales.push(sale),
                        next_sale_id: (old(self)@.next_sale_id + 1) as u32,
                        ..old(self)@
                    })
                }
            },
    {
        let time = now_timestamp();
        self.record_sale_at(product_id, quantity, unit_price, time)
    }
}

/// Sales revenue in cents: the sum of unit price times quantity over the
/// sale ledger.
pub open spec fn spec_total_sales(sales: Seq<Sale>) -> int
    decreases sales.len(),
{
    if sales.len() == 0 {
        0
    } else {
        spec_total_sales(sales.drop_last()) + sales.last().sale_price * sales.last().quantity
    }
}

/// Purchase cost in cents: the sum of unit price times quantity over the
/// purchase ledger.
pub open spec fn spec_total_purchases(purchases: Seq<Purchase>) -> int
    decreases purchases.len(),
{
    if purchases.len() == 0 {
        0
    } else {
        spec_total_purchases(purchases.drop_last()) + purchases.last().purchase_price
            * purchases.last().quantity
    }
}

pub proof fn lemma_total_sales_bound(sales: Seq<Sale>)
    ensures
        0 <= spec_total_sales(sales) <= sales.len() * 0xFFFF_FFFE_0000_0001,
    decreases sales.len(),
{
    if sales.len() > 0 {
        lemma_total_sales_bound(sales.drop_last());
        let t = sales.last();
        assert(t.sale_price * t.quantity <= 0xFFFF_FFFE_0000_0001) by (nonlinear_arith)
            requires
                t.sale_price <= 0xFFFF_FFFFu32,
                t.quantity <= 0xFFFF_FFFFu32,
        ;
        assert(t.sale_price * t.quantity >= 0) by (nonlinear_arith);
    }
}

pub proof fn lemma_total_purchases_bound(purchases: Seq<Purchase>)
    ensures
        0 <= spec_total_purchases(purchases) <= purchases.len() * 0xFFFF_FFFE_0000_0001,
    decreases purchases.len(),
{
    if purchases.len() > 0 {
        lemma_total_purchases_bound(purchases.drop_last());
        let t = purchases.last();
        assert(t.purchase_price * t.quantity <= 0xFFFF_FFFE_0000_0001) by (nonlinear_arith)
            requires
                t.purchase_price <= 0xFFFF_FFFFu32,
                t.quantity <= 0xFFFF_FFFFu32,
        ;
        assert(t.purchase_price * t.quantity >= 0) by (nonlinear_arith);
    }
}

/// A sequence of strictly increasing ids below a bound has at most that
/// many entries.
pub proof fn lemma_increasing_ids_bound(ids: Seq<u32>, bound: u32)
    requires
        forall|i: int, j: int| 0 <= i < j < ids.len() ==> ids[i] < ids[j],
        forall|i: int| 0 <= i < ids.len() ==> ids[i] < bound,
    ensures
        ids.len() <= bound,
    decreases ids.len(),
{
    if ids.len() > 0 {
        let sub = ids.drop_last();
        let last = ids.last();
        assert forall|i: int, j: int| 0 <= i < j < sub.len() implies sub[i] < sub[j] by {
            assert(sub[i] == ids[i]);
            assert(sub[j] == ids[j]);
        }
        assert forall|i: int| 0 <= i < sub.len() implies sub[i] < last by {
            assert(sub[i] == ids[i]);
            assert(ids[i] < ids[ids.len() - 1]);
        }
        lemma_increasing_ids_bound(sub, last);
    }
}

impl Store {
    /// Total sales revenue in cents over the sale ledger.
    pub fn total_sales(&self) -> (r: u128)
        requires
            self@.wf(),
        ensures
            r as int == spec_total_sales(self@.sales),
    {
        proof {
            let ids = Seq::new(self@.sales.len(), |i: int| self@.sales[i].id);
            lemma_increasing_ids_bound(ids, u32::MAX);
        }
        let mut acc: u128 = 0;
        let mut i: usize = 0;
        while i < self.sales.len()
            invariant
                0 <= i <= self@.sales.len(),
                self@.sales.len() <= 0xFFFF_FFFF,
                acc as int == spec_total_sales(self@.sales.take(i as int)),
                acc as int <= (i as int) * 0xFFFF_FFFE_0000_0001,
            decreases self@.sales.len() - i,
        {
            let s = self.sales[i];
            proof {
                assert((s.sale_price as u128) * (s.quantity as u128) <= 0xFFFF_FFFE_0000_0001)
                    by (nonlinear_arith)
                    requires
                        s.sale_price as u128 <= 0xFFFF_FFFFu128,
                        s.quantity as u128 <= 0xFFFF_FFFFu128,
                ;
            }
            let term: u128 = (s.sale_price as u128) * (s.quantity as u128);
            acc = acc + term;
            proof {
                assert(self@.sales.take(i + 1).drop_last() =~= self@.sales.take(i as int));
                assert(self@.sales.take(i + 1).last() == self@.sales[i as int]);
            }
            i = i + 1;
        }
        proof {
            assert(self@.sales.take(self@.sales.len() as int) =~= self@.sales);
        }
        acc
    }

    /// Total purchase cost in cents over the purchase ledger.
    pub fn total_purchases_cost(&self) -> (r: u128)
        requires
            self@.wf(),
        ensures
            r as int == spec_total_purchases(self@.purchases),
    {
        proof {
            let ids = Seq::new(self@.purchases.len(), |i: int| self@.purchases[i].id);
            lemma_increasing_ids_bound(ids, u32::MAX);
        }
        let mut acc: u128 = 0;
        let mut i: usize = 0;
        while i < self.purchases.len()
            invariant
                0 <= i <= self@.purchases.len(),
                self@.purchases.len() <= 0xFFFF_FFFF,
                acc as int == spec_total_purchases(self@.purchases.take(i as int)),
                acc as int <= (i as int) * 0xFFFF_FFFE_0000_0001,
            decreases self@.purchases.len() - i,
        {
            let p = self.purchases[i];
            proof {
                assert((p.purchase_price as u128) * (p.quantity as u128) <= 0xFFFF_FFFE_0000_0001)
                    by (nonlinear_arith)
                    requires
                        p.purchase_price as u128 <= 0xFFFF_FFFFu128,
                        p.quantity as u128 <= 0xFFFF_FFFFu128,
                ;
            }
            let term: u128 = (p.purchase_price as u128) * (p.quantity as u128);
            acc = acc + term;
            proof {
                assert(self@.purchases.take(i + 1).drop_last() =~= self@.purchases.take(i as int));
                assert(self@.purchases.take(i + 1).last() == self@.purchases[i as int]);
            }
            i = i + 1;
        }
        proof {
            assert(self@.purchases.take(self@.purchases.len() as int) =~= self@.purchases);
        }
        acc
    }

    /// Profit in cents: sales revenue minus purchase cost; may be negative.
    pub fn profit(&self) -> (r: i128)
        requires
            self@.wf(),
        ensures
            r as int == spec_total_sales(self@.sales) - spec_total_purchases(self@.purchases),
    {
        proof {
            let sale_ids = Seq::new(self@.sales.len(), |i: int| self@.sales[i].id);
            lemma_increasing_ids_bound(sale_ids, u32::MAX);
            let purchase_ids = Seq::new(self@.purchases.len(), |i: int| self@.purchases[i].id);
            lemma_increasing_ids_bound(purchase_ids, u32::MAX);
            lemma_total_sales_bound(self@.sales);
            lemma_total_purchases_bound(self@.purchases);
            assert(spec_total_sales(self@.sales) <= 0x1000000000000000000000000)
                by (nonlinear_arith)
                requires
                    spec_total_sales(self@.sales) <= self@.sales.len() * 0xFFFF_FFFE_0000_0001,
                    self@.sales.len() <= 0xFFFF_FFFF,
            ;
            assert(spec_total_purchases(self@.purchases) <= 0x1000000000000000000000000)
                by (nonlinear_arith)
                requires
                    spec_total_purchases(self@.purchases) <= self@.purchases.len()
                        * 0xFFFF_FFFE_0000_0001,
                    self@.purchases.len() <= 0xFFFF_FFFF,
            ;
        }
        let s = self.total_sales();
        let p = self.total_purchases_cost();
        (s as i128) - (p as i128)
    }

    /// Appends a manager with a hashed password; usernames are not
    /// required to be unique.
    pub fn add_manager(&mut self, username: &str, password: &str)
        requires
            old(self)@.wf(),
        ensures
            final(self)@.wf(),
            final(self)@ == (StoreV {
                managers: old(self)@.managers.push(
                    ManagerV { username: username@, password_hash: password_digest(password@) },
                ),
                ..old(self)@
            }),
    {
        let hash = hash_password(password);
        self.managers.push(Manager { username: String::from_str(username), password_hash: hash });
        proof {
            assert(final(self)@.managers =~= old(self)@.managers.push(
                ManagerV { username: username@, password_hash: password_digest(password@) },
            ));
            assert(final(self)@.products =~= old(self)@.products);
            assert(final(self)@.sales =~= old(self)@.sales);
            assert(final(self)@.purchases =~= old(self)@.purchases);
        }
    }

    /// True exactly when some stored manager has this username and a
    /// stored digest equal to the digest of the supplied password.
    pub fn authenticate(&self, username: &str, password: &str) -> (r: bool)
        ensures
            r == exists|i: int|
                0 <= i < self@.managers.len() && (#[trigger] self@.managers[i]).username
                    == username@ && self@.managers[i].password_hash == password_digest(password@),
    {
        let hash = hash_password(password);
        let uname = String::from_str(username);
        let mut i: usize = 0;
        while i < self.managers.len()
            invariant
                0 <= i <= self@.managers.len(),
                uname@ == username@,
                hash@ == password_digest(password@),
                forall|k: int|
                    0 <= k < i ==> !((#[trigger] self@.managers[k]).username == username@
                        && self@.managers[k].password_hash == password_digest(password@)),
            decreases self@.managers.len() - i,
        {
            if self.managers[i].username == uname && self.managers[i].password_hash == hash {
                assert(self@.managers[i as int].username == username@ && self@.managers[
                    i as int
                ].password_hash == password_digest(password@));
                return true;
            }
            i = i + 1;
        }
        false
    }
}

/// Editing a product with every field omitted returns it unchanged and
/// leaves the catalog exactly as it was.
pub proof fn lemma_edit_all_omitted(products: Seq<ProductV>, id: u32)
    requires
        find_index(products, id) >= 0,
    ensures
        spec_edit_fields(products[find_index(products, id)], None, None, None, None)
            == products[find_index(products, id)],
        products.update(
            find_index(products, id),
            spec_edit_fields(products[find_index(products, id)], None, None, None, None),
        ) == products,
{
    lemma_find_index(products, id);
    let idx = find_index(products, id);
    assert(products.update(idx, products[idx]) =~= products);
}

/// After a product is deleted, looking its id up finds nothing.
pub proof fn lemma_find_after_delete(products: Seq<ProductV>, id: u32)
    requires
        forall|i: int, j: int|
            0 <= i < j < products.len() ==> (#[trigger] products[i]).id < (
            #[trigger] products[j]).id,
        find_index(products, id) >= 0,
    ensures
        find_index(products.remove(find_index(products, id)), id) == -1,
{
    let idx = find_index(products, id);
    lemma_find_index(products, id);
    let rem = products.remove(idx);
    lemma_find_index(rem, id);
    if find_index(rem, id) >= 0 {
        let k = find_index(rem, id);
        assert(rem[k].id == id);
        if k < idx {
            assert(rem[k] == products[k]);
            assert(products[k].id < products[idx].id);
        } else {
            assert(rem[k] == products[k + 1]);
            assert(products[idx].id < products[k + 1].id);
        }
        assert(false);
    }
}

/// Overwriting the found product with one carrying the same id, as a
/// purchase or sale does to adjust stock, leaves the lookup index as it
/// was: afterwards the same id still finds the overwritten entry.
pub proof fn lemma_find_after_update(products: Seq<ProductV>, id: u32, p: ProductV)
    requires
        find_index(products, id) >= 0,
        p.id == id,
    ensures
        find_index(products.update(find_index(products, id), p), id) == find_index(products, id),
{
    let idx = find_index(products, id);
    lemma_find_index(products, id);
    let upd = products.update(idx, p);
    lemma_find_index(upd, id);
    assert(upd[idx].id == id);
    let k = find_index(upd, id);
    if k < idx {
        assert(upd[k] == products[k]);
    }
    if k > idx {
        assert(upd[idx].id != id);
    }
}

/// Appending a sale adds exactly its price times quantity to the total.
pub proof fn lemma_total_sales_push(sales: Seq<Sale>, s: Sale)
    ensures
        spec_total_sales(sales.push(s)) == spec_total_sales(sales) + s.sale_price * s.quantity,
{
    assert(sales.push(s).drop_last() =~= sales);
    assert(sales.push(s).last() == s);
}

/// Appending a purchase adds exactly its price times quantity to the
/// total cost.
pub proof fn lemma_total_purchases_push(purchases: Seq<Purchase>, p: Purchase)
    ensures
        spec_total_purchases(purchases.push(p)) == spec_total_purchases(purchases)
            + p.purchase_price * p.quantity,
{
    assert(purchases.push(p).drop_last() =~= purchases);
    assert(purchases.push(p).last() == p);
}

/// In a chain of adjacent strictly increasing ids, any earlier entry is
/// below any later one.
pub proof fn lemma_chain_increasing(ids: Seq<u32>, i: int, j: int)
    requires
        forall|k: int| 0 <= k < ids.len() - 1 ==> (#[trigger] ids[k]) < ids[k + 1],
        0 <= i < j < ids.len(),
    ensures
        ids[i] < ids[j],
    decreases j - i,
{
    if j > i + 1 {
        lemma_chain_increasing(ids, i, j - 1);
    }
    assert(ids[j - 1] < ids[j]);
}

impl Store {
    /// Checks the store invariants at run time, for a store that was not
    /// built by this library's own operations.
    pub fn check_invariants(&self) -> (b: bool)
        ensures
            b == self@.wf(),
    {
        if self.next_product_id == 0 || self.next_sale_id == 0 || self.next_purchase_id == 0 {
            return false;
        }
        let mut i: usize = 0;
        while i < self.products.len()
            invariant
                0 <= i <= self@.products.len(),
                forall|k: int|
                    0 <= k < i ==> (#[trigger] self@.products[k]).id < self@.next_product_id,
                forall|k: int|
                    0 <= k < i - 1 ==> (#[trigger] self@.products[k]).id < self@.products[k
                        + 1].id,
            decreases self@.products.len() - i,
        {
            if self.products[i].id >= self.next_product_id {
                assert(self@.products[i as int].id >= self@.next_product_id);
                return false;
            }
            if i > 0 && self.products[i - 1].id >= self.products[i].id {
                assert(self@.products[i - 1].id >= self@.products[i as int].id);
                return false;
            }
            i = i + 1;
        }
        let mut i: usize = 0;
        while i < self.sales.len()
            invariant
                0 <= i <= self@.sales.len(),
                forall|k: int| 0 <= k < i ==> (#[trigger] self@.sales[k]).id < self@.next_sale_id,
                forall|k: int|
                    0 <= k < i - 1 ==> (#[trigger] self@.sales[k]).id < self@.sales[k + 1].id,
                forall|k: int| 0 <= k < i ==> (#[trigger] self@.sales[k]).quantity >= 1,
            decreases self@.sales.len() - i,
        {
            if self.sales[i].id >= self.next_sale_id || self.sales[i].quantity == 0 {
                assert(self@.sales[i as int].id >= self@.next_sale_id || self@.sales[
                    i as int
                ].quantity == 0);
                return false;
            }
            if i > 0 && self.sales[i - 1].id >= self.sales[i].id {
                assert(self@.sales[i - 1].id >= self@.sales[i as int].id);
                return false;
            }
            i = i + 1;
        }
        let mut i: usize = 0;
        while i < self.purchases.len()
            invariant
                0 <= i <= self@.purchases.len(),
                forall|k: int|
                    0 <= k < i ==> (#[trigger] self@.purchases[k]).id < self@.next_purchase_id,
                forall|k: int|
                    0 <= k < i - 1 ==> (#[trigger] self@.purchases[k]).id < self@.purchases[k
                        + 1].id,
                forall|k: int| 0 <= k < i ==> (#[trigger] self@.purchases[k]).quantity >= 1,
            decreases self@.purchases.len() - i,
        {
            if self.purchases[i].id >= self.next_purchase_id || self.purchases[i].quantity == 0 {
                assert(self@.purchases[i as int].id >= self@.next_purchase_id || self@.purchases[
                    i as int
                ].quantity == 0);
                return false;
            }
            if i > 0 && self.purchases[i - 1].id >= self.purchases[i].id {
                assert(self@.purchases[i - 1].id >= self@.purchases[i as int].id);
                return false;
            }
            i = i + 1;
        }
        proof {
            let v = self@;
            let pids = Seq::new(v.products.len(), |k: int| v.products[k].id);
            assert forall|a: int, b: int| 0 <= a < b < v.products.len() implies (
            #[trigger] v.products[a]).id < (#[trigger] v.products[b]).id by {
                lemma_chain_increasing(pids, a, b);
            }
            let sids = Seq::new(v.sales.len(), |k: int| v.sales[k].id);
            assert forall|a: int, b: int| 0 <= a < b < v.sales.len() implies (
            #[trigger] v.sales[a]).id < (#[trigger] v.sales[b]).id by {
                lemma_chain_increasing(sids, a, b);
            }
            let uids = Seq::new(v.purchases.len(), |k: int| v.purchases[k].id);
            assert forall|a: int, b: int| 0 <= a < b < v.purchases.len() implies (
            #[trigger] v.purchases[a]).id < (#[trigger] v.purchases[b]).id by {
                lemma_chain_increasing(uids, a, b);
            }
        }
        true
    }
}

/// A product with just the supplied fields overwritten.
pub open spec fn spec_edit_fields(
    p: ProductV,
    name: Option<Seq<char>>,
    description: Option<Seq<char>>,
    price: Option<u32>,
    quantity: Option<u32>,
) -> ProductV {
    ProductV {
        id: p.id,
        name: match name {
            Some(n) => n,
            None => p.name,
        },
        description: match description {
            Some(d) => d,
            None => p.description,
        },
        price: match price {
            Some(pr) => pr,
            None => p.price,
        },
        quantity: match quantity {
            Some(q) => q,
            None => p.quantity,
        },
    }
}

} // verus!
