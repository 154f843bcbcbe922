//! The persisted snapshot format: one line of counters, then one line per
//! product, sale, purchase and manager, every number in fixed-width hex
//! and every string length-prefixed. Parsing is proved to invert
//! encoding, so a saved store loads back exactly.

use crate::codec::{
    enc_hex, enc_str, lemma_parse_enc_hex, lemma_parse_enc_str, parse_hex, parse_str, pow16,
    push_hex, push_str_enc, read_hex, read_str,
};
use crate::store::{manager_views, product_views, Manager, ManagerV, Product, ProductV, Purchase, Sale, Store, StoreV};
use crate::StoreError;
use vstd::prelude::*;

verus! {

pub open spec fn enc_u32(n: u32) -> Seq<u8> {
    enc_hex(n as nat, 8)
}

pub open spec fn enc_u64(n: u64) -> Seq<u8> {
    enc_hex(n as nat, 16)
}

pub open spec fn nl() -> Seq<u8> {
    seq![10u8]
}

pub open spec fn enc_product(p: ProductV) -> Seq<u8> {
    enc_u32(p.id) + enc_str(p.name) + enc_str(p.description) + enc_u32(p.price) + enc_u32(
        p.quantity,
    ) + nl()
}

pub open spec fn enc_sale(s: Sale) -> Seq<u8> {
    enc_u32(s.id) + enc_u32(s.product_id) + enc_u32(s.quantity) + enc_u32(s.sale_price) + enc_u64(
        s.time,
    ) + nl()
}

pub open spec fn enc_purchase(p: Purchase) -> Seq<u8> {
    enc_u32(p.id) + enc_u32(p.product_id) + enc_u32(p.quantity) + enc_u32(p.purchase_price)
        + enc_u64(p.time) + nl()
}

pub open spec fn enc_manager(m: ManagerV) -> Seq<u8> {
    enc_str(m.username) + enc_str(m.password_hash) + nl()
}

pub open spec fn enc_products(ps: Seq<ProductV>) -> Seq<u8>
    decreases ps.len(),
{
    if ps.len() == 0 {
        Seq::empty()
    } else {
        enc_product(ps[0]) + enc_products(ps.skip(1))
    }
}

pub open spec fn enc_sales(ss: Seq<Sale>) -> Seq<u8>
    decreases ss.len(),
{
    if ss.len() == 0 {
        Seq::empty()
    } else {
        enc_sale(ss[0]) + enc_sales(ss.skip(1))
    }
}

pub open spec fn enc_purchases(ps: Seq<Purchase>) -> Seq<u8>
    decreases ps.len(),
{
    if ps.len() == 0 {
        Seq::empty()
    } else {
        enc_purchase(ps[0]) + enc_purchases(ps.skip(1))
    }
}

pub open spec fn enc_managers(ms: Seq<ManagerV>) -> Seq<u8>
    decreases ms.len(),
{
    if ms.len() == 0 {
        Seq::empty()
    } else {
        enc_manager(ms[0]) + enc_managers(ms.skip(1))
    }
}

/// The first line: the three id counters.
pub open spec fn enc_counters(v: StoreV) -> Seq<u8> {
    enc_u32(v.next_product_id) + enc_u32(v.next_sale_id) + enc_u32(v.next_purchase_id) + nl()
}

/// An entry count on its own line, then that many products.
pub open spec fn enc_counted_products(ps: Seq<ProductV>) -> Seq<u8> {
    enc_hex(ps.len(), 16) + nl() + enc_products(ps)
}

pub open spec fn enc_counted_sales(ss: Seq<Sale>) -> Seq<u8> {
    enc_hex(ss.len(), 16) + nl() + enc_sales(ss)
}

pub open spec fn enc_counted_purchases(ps: Seq<Purchase>) -> Seq<u8> {
    enc_hex(ps.len(), 16) + nl() + enc_purchases(ps)
}

pub open spec fn enc_counted_managers(ms: Seq<ManagerV>) -> Seq<u8> {
    enc_hex(ms.len(), 16) + nl() + enc_managers(ms)
}

/// The whole store as bytes: counters, then each collection behind its
/// entry count.
pub open spec fn enc_store(v: StoreV) -> Seq<u8> {
    enc_counters(v) + enc_counted_products(v.products) + enc_counted_sales(v.sales)
        + enc_counted_purchases(v.purchases) + enc_counted_managers(v.managers)
}

/// Every count and string length fits the fixed 16-digit width. Any store
/// held in memory satisfies this.
pub open spec fn encodable(v: StoreV) -> bool {
    &&& v.products.len() < pow16(16)
    &&& v.sales.len() < pow16(16)
    &&& v.purchases.len() < pow16(16)
    &&& v.managers.len() < pow16(16)
    &&& forall|i: int|
        0 <= i < v.products.len() ==> (#[trigger] v.products[i]).name.len() < pow16(16) && v.products[i].description.len() < pow16(16)
    &&& forall|i: int|
        0 <= i < v.managers.len() ==> (#[trigger] v.managers[i]).username.len() < pow16(16)
            && v.managers[i].password_hash.len() < pow16(16)
}

pub open spec fn parse_u32(s: Seq<u8>) -> Option<(u32, Seq<u8>)> {
    match parse_hex(s, 8) {
        Some((n, r)) => Some((n as u32, r)),
        None => None,
    }
}

pub open spec fn parse_u64(s: Seq<u8>) -> Option<(u64, Seq<u8>)> {
    match parse_hex(s, 16) {
        Some((n, r)) => Some((n as u64, r)),
        None => None,
    }
}

pub open spec fn parse_nl(s: Seq<u8>) -> Option<Seq<u8>> {
    if s.len() >= 1 && s[0] == 10u8 {
        Some(s.skip(1))
    } else {
        None
    }
}

pub open spec fn parse_product(s: Seq<u8>) -> Option<(ProductV, Seq<u8>)> {
    match parse_u32(s) {
        Some((id, s)) => match parse_str(s) {
            Some((name, s)) => match parse_str(s) {
                Some((description, s)) => match parse_u32(s) {
                    Some((price, s)) => match parse_u32(s) {
                        Some((quantity, s)) => match parse_nl(s) {
                            Some(s) => Some(
                                (ProductV { id, name, description, price, quantity }, s),
                            ),
                            None => None,
                        },
                        None => None,
                    },
                    None => None,
                },
                None => None,
            },
            None => None,
        },
        None => None,
    }
}

pub open spec fn parse_sale(s: Seq<u8>) -> Option<(Sale, Seq<u8>)> {
    match parse_u32(s) {
        Some((id, s)) => match parse_u32(s) {
            Some((product_id, s)) => match parse_u32(s) {
                Some((quantity, s)) => match parse_u32(s) {
                    Some((sale_price, s)) => match parse_u64(s) {
                        Some((time, s)) => match parse_nl(s) {
                            Some(s) => Some(
                                (Sale { id, product_id, quantity, sale_price, time }, s),
                            ),
                            None => None,
                        },
                        None => None,
                    },
                    None => None,
                },
                None => None,
            },
            None => None,
        },
        None => None,
    }
}

pub open spec fn parse_purchase(s: Seq<u8>) -> Option<(Purchase, Seq<u8>)> {
    match parse_u32(s) {
        Some((id, s)) => match parse_u32(s) {
            Some((product_id, s)) => match parse_u32(s) {
                Some((quantity, s)) => match parse_u32(s) {
                    Some((purchase_price, s)) => match parse_u64(s) {
                        Some((time, s)) => match parse_nl(s) {
                            Some(s) => Some(
                                (Purchase { id, product_id, quantity, purchase_price, time }, s),
                            ),
                            None => None,
                        },
                        None => None,
                    },
                    None => None,
                },
                None => None,
            },
            None => None,
        },
        None => None,
    }
}

pub open spec fn parse_manager(s: Seq<u8>) -> Option<(ManagerV, Seq<u8>)> {
    match parse_str(s) {
        Some((username, s)) => match parse_str(s) {
            Some((password_hash, s)) => match parse_nl(s) {
                Some(s) => Some((ManagerV { username, password_hash }, s)),
                None => None,
            },
            None => None,
        },
        None => None,
    }
}

pub open spec fn parse_products(s: Seq<u8>, n: nat) -> Option<(Seq<ProductV>, Seq<u8>)>
    decreases n,
{
    if n == 0 {
        Some((Seq::empty(), s))
    } else {
        match parse_product(s) {
            Some((p, r)) => match parse_products(r, (n - 1) as nat) {
                Some((t, r2)) => Some((seq![p] + t, r2)),
                None => None,
            },
            None => None,
        }
    }
}

pub open spec fn parse_sales(s: Seq<u8>, n: nat) -> Option<(Seq<Sale>, Seq<u8>)>
    decreases n,
{
    if n == 0 {
        Some((Seq::empty(), s))
    } else {
        match parse_sale(s) {
            Some((p, r)) => match parse_sales(r, (n - 1) as nat) {
                Some((t, r2)) => Some((seq![p] + t, r2)),
                None => None,
            },
            None => None,
        }
    }
}

pub open spec fn parse_purchases(s: Seq<u8>, n: nat) -> Option<(Seq<Purchase>, Seq<u8>)>
    decreases n,
{
    if n == 0 {
        Some((Seq::empty(), s))
    } else {
        match parse_purchase(s) {
            Some((p, r)) => match parse_purchases(r, (n - 1) as nat) {
                Some((t, r2)) => Some((seq![p] + t, r2)),
                None => None,
            },
            None => None,
        }
    }
}

pub open spec fn parse_managers(s: Seq<u8>, n: nat) -> Option<(Seq<ManagerV>, Seq<u8>)>
    decreases n,
{
    if n == 0 {
        Some((Seq::empty(), s))
    } else {
        match parse_manager(s) {
            Some((p, r)) => match parse_managers(r, (n - 1) as nat) {
                Some((t, r2)) => Some((seq![p] + t, r2)),
                None => None,
            },
            None => None,
        }
    }
}

/// The three id counters on the first line.
pub open spec fn parse_counters(s: Seq<u8>) -> Option<((u32, u32, u32), Seq<u8>)> {
    match parse_u32(s) {
        Some((a, s)) => match parse_u32(s) {
            Some((b, s)) => match parse_u32(s) {
                Some((c, s)) => match parse_nl(s) {
                    Some(s) => Some(((a, b, c), s)),
                    None => None,
                },
                None => None,
            },
            None => None,
        },
        None => None,
    }
}

/// An entry count on its own line, then that many products.
pub open spec fn parse_counted_products(s: Seq<u8>) -> Option<(Seq<ProductV>, Seq<u8>)> {
    match parse_u64(s) {
        Some((n, s)) => match parse_nl(s) {
            Some(s) => parse_products(s, n as nat),
            None => None,
        },
        None => None,
    }
}

pub open spec fn parse_counted_sales(s: Seq<u8>) -> Option<(Seq<Sale>, Seq<u8>)> {
    match parse_u64(s) {
        Some((n, s)) => match parse_nl(s) {
            Some(s) => parse_sales(s, n as nat),
            None => None,
        },
        None => None,
    }
}

pub open spec fn parse_counted_purchases(s: Seq<u8>) -> Option<(Seq<Purchase>, Seq<u8>)> {
    match parse_u64(s) {
        Some((n, s)) => match parse_nl(s) {
            Some(s) => parse_purchases(s, n as nat),
            None => None,
        },
        None => None,
    }
}

pub open spec fn parse_counted_managers(s: Seq<u8>) -> Option<(Seq<ManagerV>, Seq<u8>)> {
    match parse_u64(s) {
        Some((n, s)) => match parse_nl(s) {
            Some(s) => parse_managers(s, n as nat),
            None => None,
        },
        None => None,
    }
}

/// The store a byte sequence holds, if it is a complete well-shaped
/// snapshot with nothing after it.
pub open spec fn parse_store(s: Seq<u8>) -> Option<StoreV> {
    match parse_counters(s) {
        Some((counters, s)) => match parse_counted_products(s) {
            Some((products, s)) => match parse_counted_sales(s) {
                Some((sales, s)) => match parse_counted_purchases(s) {
                    Some((purchases, s)) => match parse_counted_managers(s) {
                        Some((managers, s)) => if s.len() == 0 {
                            Some(
                                StoreV {
                                    products,
                                    sales,
                                    purchases,
                                    managers,
                                    next_product_id: counters.0,
                                    next_sale_id: counters.1,
                                    next_purchase_id: counters.2,
                                },
                            )
                        } else {
                            None
                        },
                        None => None,
                    },
                    None => None,
                },
                None => None,
            },
            None => None,
        },
        None => None,
    }
}

pub proof fn lemma_parse_enc_u32(n: u32, rest: Seq<u8>)
    ensures
        parse_u32(enc_u32(n) + rest) == Some((n, rest)),
{
    assert(pow16(8) == 0x100000000) by {
        reveal_with_fuel(pow16, 9);
    }
    lemma_parse_enc_hex(n as nat, 8, rest);
}

pub proof fn lemma_parse_enc_u64(n: u64, rest: Seq<u8>)
    ensures
        parse_u64(enc_u64(n) + rest) == Some((n, rest)),
{
    assert(pow16(16) == 0x10000000000000000) by {
        reveal_with_fuel(pow16, 17);
    }
    lemma_parse_enc_hex(n as nat, 16, rest);
}

pub proof fn lemma_parse_nl(rest: Seq<u8>)
    ensures
        parse_nl(nl() + rest) == Some(rest),
{
    assert((nl() + rest)[0] == 10u8);
    assert((nl() + rest).skip(1) =~= rest);
}

pub proof fn lemma_parse_enc_product(p: ProductV, rest: Seq<u8>)
    requires
        p.name.len() < pow16(16),
        p.description.len() < pow16(16),
    ensures
        parse_product(enc_product(p) + rest) == Some((p, rest)),
{
    let r4 = nl() + rest;
    let r3 = enc_u32(p.quantity) + r4;
    let r2 = enc_u32(p.price) + r3;
    let r1 = enc_str(p.description) + r2;
    let r0 = enc_str(p.name) + r1;
    assert(enc_product(p) + rest =~= enc_u32(p.id) + r0);
    lemma_parse_enc_u32(p.id, r0);
    assert(r0 =~= enc_str(p.name) + r1);
    lemma_parse_enc_str(p.name, r1);
    lemma_parse_enc_str(p.description, r2);
    lemma_parse_enc_u32(p.price, r3);
    lemma_parse_enc_u32(p.quantity, r4);
    lemma_parse_nl(rest);
}

pub proof fn lemma_parse_enc_sale(s: Sale, rest: Seq<u8>)
    ensures
        parse_sale(enc_sale(s) + rest) == Some((s, rest)),
{
    let r4 = nl() + rest;
    let r3 = enc_u64(s.time) + r4;
    let r2 = enc_u32(s.sale_price) + r3;
    let r1 = enc_u32(s.quantity) + r2;
    let r0 = enc_u32(s.product_id) + r1;
    assert(enc_sale(s) + rest =~= enc_u32(s.id) + r0);
    lemma_parse_enc_u32(s.id, r0);
    lemma_parse_enc_u32(s.product_id, r1);
    lemma_parse_enc_u32(s.quantity, r2);
    lemma_parse_enc_u32(s.sale_price, r3);
    lemma_parse_enc_u64(s.time, r4);
    lemma_parse_nl(rest);
}

pub proof fn lemma_parse_enc_purchase(p: Purchase, rest: Seq<u8>)
    ensures
        parse_purchase(enc_purchase(p) + rest) == Some((p, rest)),
{
    let r4 = nl() + rest;
    let r3 = enc_u64(p.time) + r4;
    let r2 = enc_u32(p.purchase_price) + r3;
    let r1 = enc_u32(p.quantity) + r2;
    let r0 = enc_u32(p.product_id) + r1;
    assert(enc_purchase(p) + rest =~= enc_u32(p.id) + r0);
    lemma_parse_enc_u32(p.id, r0);
    lemma_parse_enc_u32(p.product_id, r1);
    lemma_parse_enc_u32(p.quantity, r2);
    lemma_parse_enc_u32(p.purchase_price, r3);
    lemma_parse_enc_u64(p.time, r4);
    lemma_parse_nl(rest);
}

pub proof fn lemma_parse_enc_manager(m: ManagerV, rest: Seq<u8>)
    requires
        m.username.len() < pow16(16),
        m.password_hash.len() < pow16(16),
    ensures
        parse_manager(enc_manager(m) + rest) == Some((m, rest)),
{
    let r1 = nl() + rest;
    let r0 = enc_str(m.password_hash) + r1;
    assert(enc_manager(m) + rest =~= enc_str(m.username) + r0);
    lemma_parse_enc_str(m.username, r0);
    lemma_parse_enc_str(m.password_hash, r1);
    lemma_parse_nl(rest);
}

pub proof fn lemma_parse_enc_products(ps: Seq<ProductV>, rest: Seq<u8>)
    requires
        forall|i: int|
            0 <= i < ps.len() ==> (#[trigger] ps[i]).name.len() < pow16(16)
                && ps[i].description.len() < pow16(16),
    ensures
        parse_products(enc_products(ps) + rest, ps.len()) == Some((ps, rest)),
    decreases ps.len(),
{
    if ps.len() == 0 {
        assert(enc_products(ps) + rest =~= rest);
    } else {
        assert(forall|i: int| 0 <= i < ps.len() - 1 ==> ps.skip(1)[i] == ps[i + 1]);
        lemma_parse_enc_products(ps.skip(1), rest);
        assert(enc_products(ps) + rest =~= enc_product(ps[0]) + (enc_products(ps.skip(1)) + rest));
        lemma_parse_enc_product(ps[0], enc_products(ps.skip(1)) + rest);
        assert(seq![ps[0]] + ps.skip(1) =~= ps);
    }
}

pub proof fn lemma_parse_enc_sales(ss: Seq<Sale>, rest: Seq<u8>)
    ensures
        parse_sales(enc_sales(ss) + rest, ss.len()) == Some((ss, rest)),
    decreases ss.len(),
{
    if ss.len() == 0 {
        assert(enc_sales(ss) + rest =~= rest);
    } else {
        lemma_parse_enc_sales(ss.skip(1), rest);
        assert(enc_sales(ss) + rest =~= enc_sale(ss[0]) + (enc_sales(ss.skip(1)) + rest));
        lemma_parse_enc_sale(ss[0], enc_sales(ss.skip(1)) + rest);
        assert(seq![ss[0]] + ss.skip(1) =~= ss);
    }
}

pub proof fn lemma_parse_enc_purchases(ps: Seq<Purchase>, rest: Seq<u8>)
    ensures
        parse_purchases(enc_purchases(ps) + rest, ps.len()) == Some((ps, rest)),
    decreases ps.len(),
{
    if ps.len() == 0 {
        assert(enc_purchases(ps) + rest =~= rest);
    } else {
        lemma_parse_enc_purchases(ps.skip(1), rest);
        assert(enc_purchases(ps) + rest =~= enc_purchase(ps[0]) + (enc_purchases(ps.skip(1))
            + rest));
        lemma_parse_enc_purchase(ps[0], enc_purchases(ps.skip(1)) + rest);
        assert(seq![ps[0]] + ps.skip(1) =~= ps);
    }
}

pub proof fn lemma_parse_enc_managers(ms: Seq<ManagerV>, rest: Seq<u8>)
    requires
        forall|i: int|
            0 <= i < ms.len() ==> (#[trigger] ms[i]).username.len() < pow16(16)
                && ms[i].password_hash.len() < pow16(16),
    ensures
        parse_managers(enc_managers(ms) + rest, ms.len()) == Some((ms, rest)),
    decreases ms.len(),
{
    if ms.len() == 0 {
        assert(enc_managers(ms) + rest =~= rest);
    } else {
        assert(forall|i: int| 0 <= i < ms.len() - 1 ==> ms.skip(1)[i] == ms[i + 1]);
        lemma_parse_enc_managers(ms.skip(1), rest);
        assert(enc_managers(ms) + rest =~= enc_manager(ms[0]) + (enc_managers(ms.skip(1)) + rest));
        lemma_parse_enc_manager(ms[0], enc_managers(ms.skip(1)) + rest);
        assert(seq![ms[0]] + ms.skip(1) =~= ms);
    }
}

pub proof fn lemma_parse_enc_counters(v: StoreV, rest: Seq<u8>)
    ensures
        parse_counters(enc_counters(v) + rest) == Some(
            ((v.next_product_id, v.next_sale_id, v.next_purchase_id), rest),
        ),
{
    let r2 = nl() + rest;
    let r1 = enc_u32(v.next_purchase_id) + r2;
    let r0 = enc_u32(v.next_sale_id) + r1;
    assert(enc_counters(v) + rest =~= enc_u32(v.next_product_id) + r0);
    lemma_parse_enc_u32(v.next_product_id, r0);
    lemma_parse_enc_u32(v.next_sale_id, r1);
    lemma_parse_enc_u32(v.next_purchase_id, r2);
    lemma_parse_nl(rest);
}

pub proof fn lemma_parse_enc_counted_products(ps: Seq<ProductV>, rest: Seq<u8>)
    requires
        ps.len() < pow16(16),
        forall|i: int|
            0 <= i < ps.len() ==> (#[trigger] ps[i]).name.len() < pow16(16)
                && ps[i].description.len() < pow16(16),
    ensures
        parse_counted_products(enc_counted_products(ps) + rest) == Some((ps, rest)),
{
    assert(pow16(16) == 0x10000000000000000) by {
        reveal_with_fuel(pow16, 17);
    }
    let r1 = enc_products(ps) + rest;
    let r0 = nl() + r1;
    assert(enc_counted_products(ps) + rest =~= enc_hex(ps.len(), 16) + r0);
    lemma_parse_enc_hex(ps.len(), 16, r0);
    lemma_parse_nl(r1);
    lemma_parse_enc_products(ps, rest);
}

pub proof fn lemma_parse_enc_counted_sales(ss: Seq<Sale>, rest: Seq<u8>)
    requires
        ss.len() < pow16(16),
    ensures
        parse_counted_sales(enc_counted_sales(ss) + rest) == Some((ss, rest)),
{
    assert(pow16(16) == 0x10000000000000000) by {
        reveal_with_fuel(pow16, 17);
    }
    let r1 = enc_sales(ss) + rest;
    let r0 = nl() + r1;
    assert(enc_counted_sales(ss) + rest =~= enc_hex(ss.len(), 16) + r0);
    lemma_parse_enc_hex(ss.len(), 16, r0);
    lemma_parse_nl(r1);
    lemma_parse_enc_sales(ss, rest);
}

pub proof fn lemma_parse_enc_counted_purchases(ps: Seq<Purchase>, rest: Seq<u8>)
    requires
        ps.len() < pow16(16),
    ensures
        parse_counted_purchases(enc_counted_purchases(ps) + rest) == Some((ps, rest)),
{
    assert(pow16(16) == 0x10000000000000000) by {
        reveal_with_fuel(pow16, 17);
    }
    let r1 = enc_purchases(ps) + rest;
    let r0 = nl() + r1;
    assert(enc_counted_purchases(ps) + rest =~= enc_hex(ps.len(), 16) + r0);
    lemma_parse_enc_hex(ps.len(), 16, r0);
    lemma_parse_nl(r1);
    lemma_parse_enc_purchases(ps, rest);
}

pub proof fn lemma_parse_enc_counted_managers(ms: Seq<ManagerV>, rest: Seq<u8>)
    requires
        ms.len() < pow16(16),
        forall|i: int|
            0 <= i < ms.len() ==> (#[trigger] ms[i]).username.len() < pow16(16)
                && ms[i].password_hash.len() < pow16(16),
    ensures
        parse_counted_managers(enc_counted_managers(ms) + rest) == Some((ms, rest)),
{
    assert(pow16(16) == 0x10000000000000000) by {
        reveal_with_fuel(pow16, 17);
    }
    let r1 = enc_managers(ms) + rest;
    let r0 = nl() + r1;
    assert(enc_counted_managers(ms) + rest =~= enc_hex(ms.len(), 16) + r0);
    lemma_parse_enc_hex(ms.len(), 16, r0);
    lemma_parse_nl(r1);
    lemma_parse_enc_managers(ms, rest);
}

/// A snapshot parses back to exactly the store it was taken from.
pub proof fn lemma_snapshot_round_trip(v: StoreV)
    requires
        encodable(v),
    ensures
        parse_store(enc_store(v)) == Some(v),
{
    let m = enc_counted_managers(v.managers);
    let u = enc_counted_purchases(v.purchases) + m;
    let s = enc_counted_sales(v.sales) + u;
    let p = enc_counted_products(v.products) + s;
    assert(enc_store(v) =~= enc_counters(v) + p);
    lemma_parse_enc_counters(v, p);
    lemma_parse_enc_counted_products(v.products, s);
    lemma_parse_enc_counted_sales(v.sales, u);
    lemma_parse_enc_counted_purchases(v.purchases, m);
    lemma_parse_enc_counted_managers(v.managers, Seq::empty());
    assert(enc_counted_managers(v.managers) + Seq::<u8>::empty() =~= enc_counted_managers(
        v.managers,
    ));
}

pub proof fn lemma_enc_products_append(a: Seq<ProductV>, b: Seq<ProductV>)
    ensures
        enc_products(a + b) == enc_products(a) + enc_products(b),
    decreases a.len(),
{
    if a.len() == 0 {
        assert(a + b =~= b);
        assert(enc_products(a) + enc_products(b) =~= enc_products(b));
    } else {
        assert((a + b)[0] == a[0]);
        assert((a + b).skip(1) =~= a.skip(1) + b);
        lemma_enc_products_append(a.skip(1), b);
        assert(enc_product(a[0]) + (enc_products(a.skip(1)) + enc_products(b)) =~= (enc_product(
            a[0],
        ) + enc_products(a.skip(1))) + enc_products(b));
    }
}

pub proof fn lemma_enc_sales_append(a: Seq<Sale>, b: Seq<Sale>)
    ensures
        enc_sales(a + b) == enc_sales(a) + enc_sales(b),
    decreases a.len(),
{
    if a.len() == 0 {
        assert(a + b =~= b);
        assert(enc_sales(a) + enc_sales(b) =~= enc_sales(b));
    } else {
        assert((a + b)[0] == a[0]);
        assert((a + b).skip(1) =~= a.skip(1) + b);
        lemma_enc_sales_append(a.skip(1), b);
        assert(enc_sale(a[0]) + (enc_sales(a.skip(1)) + enc_sales(b)) =~= (enc_sale(a[0])
            + enc_sales(a.skip(1))) + enc_sales(b));
    }
}

pub proof fn lemma_enc_purchases_append(a: Seq<Purchase>, b: Seq<Purchase>)
    ensures
        enc_purchases(a + b) == enc_purchases(a) + enc_purchases(b),
    decreases a.len(),
{
    if a.len() == 0 {
        assert(a + b =~= b);
        assert(enc_purchases(a) + enc_purchases(b) =~= enc_purchases(b));
    } else {
        assert((a + b)[0] == a[0]);
        assert((a + b).skip(1) =~= a.skip(1) + b);
        lemma_enc_purchases_append(a.skip(1), b);
        assert(enc_purchase(a[0]) + (enc_purchases(a.skip(1)) + enc_purchases(b)) =~= (
        enc_purchase(a[0]) + enc_purchases(a.skip(1))) + enc_purchases(b));
    }
}

pub proof fn lemma_enc_managers_append(a: Seq<ManagerV>, b: Seq<ManagerV>)
    ensures
        enc_managers(a + b) == enc_managers(a) + enc_managers(b),
    decreases a.len(),
{
    if a.len() == 0 {
        assert(a + b =~= b);
        assert(enc_managers(a) + enc_managers(b) =~= enc_managers(b));
    } else {
        assert((a + b)[0] == a[0]);
        assert((a + b).skip(1) =~= a.skip(1) + b);
        lemma_enc_managers_append(a.skip(1), b);
        assert(enc_manager(a[0]) + (enc_managers(a.skip(1)) + enc_managers(b)) =~= (enc_manager(
            a[0],
        ) + enc_managers(a.skip(1))) + enc_managers(b));
    }
}

/// Appends the count line and the product records.
fn push_counted_products(out: &mut Vec<u8>, ps: &Vec<Product>)
    ensures
        final(out)@ == old(out)@ + enc_counted_products(product_views(ps@)),
        ps@.len() < pow16(16),
        forall|i: int|
            0 <= i < ps@.len() ==> (#[trigger] product_views(ps@)[i]).name.len() < pow16(16)
                && product_views(ps@)[i].description.len() < pow16(16),
{
    proof {
        assert(pow16(16) == 0x10000000000000000) by {
            reveal_with_fuel(pow16, 17);
        }
        assert(ps@.len() == ps.len());
    }
    push_hex(out, ps.len() as u64, 16);
    out.push(10u8);
    let ghost base = out@;
    let ghost t = product_views(ps@);
    proof {
        assert(base =~= old(out)@ + enc_hex(t.len(), 16) + nl());
    }
    let mut i: usize = 0;
    while i < ps.len()
        invariant
            0 <= i <= t.len(),
            t == product_views(ps@),
            t.len() == ps@.len(),
            out@ == base + enc_products(t.take(i as int)),
            base == old(out)@ + enc_hex(t.len(), 16) + nl(),
            forall|k: int|
                0 <= k < i ==> (#[trigger] t[k]).name.len() < pow16(16) && t[k].description.len()
                    < pow16(16),
        decreases t.len() - i,
    {
        let ghost before = out@;
        let p = &ps[i];
        push_hex(out, p.id as u64, 8);
        push_str_enc(out, p.name.as_str());
        push_str_enc(out, p.description.as_str());
        push_hex(out, p.price as u64, 8);
        push_hex(out, p.quantity as u64, 8);
        out.push(10u8);
        proof {
            assert(out@ =~= before + enc_product(t[i as int]));
            assert(t.take(i + 1) =~= t.take(i as int) + seq![t[i as int]]);
            lemma_enc_products_append(t.take(i as int), seq![t[i as int]]);
            assert(seq![t[i as int]].skip(1) =~= Seq::<ProductV>::empty());
            assert(enc_products(Seq::<ProductV>::empty()) =~= Seq::<u8>::empty());
            assert(enc_product(t[i as int]) + Seq::<u8>::empty() =~= enc_product(t[i as int]));
            assert(enc_products(seq![t[i as int]]) =~= enc_product(t[i as int]));
        }
        i = i + 1;
    }
    proof {
        assert(t.take(t.len() as int) =~= t);
        assert(out@ =~= old(out)@ + enc_counted_products(t));
    }
}

/// Appends the count line and the sale records.
fn push_counted_sales(out: &mut Vec<u8>, ss: &Vec<Sale>)
    ensures
        final(out)@ == old(out)@ + enc_counted_sales(ss@),
        ss@.len() < pow16(16),
{
    proof {
        assert(pow16(16) == 0x10000000000000000) by {
            reveal_with_fuel(pow16, 17);
        }
        assert(ss@.len() == ss.len());
    }
    push_hex(out, ss.len() as u64, 16);
    out.push(10u8);
    let ghost base = out@;
    let ghost t = ss@;
    proof {
        assert(base =~= old(out)@ + enc_hex(t.len(), 16) + nl());
    }
    let mut i: usize = 0;
    while i < ss.len()
        invariant
            0 <= i <= t.len(),
            t == ss@,
            out@ == base + enc_sales(t.take(i as int)),
            base == old(out)@ + enc_hex(t.len(), 16) + nl(),
        decreases t.len() - i,
    {
        let ghost before = out@;
        let s = ss[i];
        push_hex(out, s.id as u64, 8);
        push_hex(out, s.product_id as u64, 8);
        push_hex(out, s.quantity as u64, 8);
        push_hex(out, s.sale_price as u64, 8);
        push_hex(out, s.time, 16);
        out.push(10u8);
        proof {
            assert(out@ =~= before + enc_sale(t[i as int]));
            assert(t.take(i + 1) =~= t.take(i as int) + seq![t[i as int]]);
            lemma_enc_sales_append(t.take(i as int), seq![t[i as int]]);
            assert(seq![t[i as int]].skip(1) =~= Seq::<Sale>::empty());
            assert(enc_sales(Seq::<Sale>::empty()) =~= Seq::<u8>::empty());
            assert(enc_sale(t[i as int]) + Seq::<u8>::empty() =~= enc_sale(t[i as int]));
            assert(enc_sales(seq![t[i as int]]) =~= enc_sale(t[i as int]));
        }
        i = i + 1;
    }
    proof {
        assert(t.take(t.len() as int) =~= t);
        assert(out@ =~= old(out)@ + enc_counted_sales(t));
    }
}

/// Appends the count line and the purchase records.
fn push_counted_purchases(out: &mut Vec<u8>, ps: &Vec<Purchase>)
    ensures
        final(out)@ == old(out)@ + enc_counted_purchases(ps@),
        ps@.len() < pow16(16),
{
    proof {
        assert(pow16(16) == 0x10000000000000000) by {
            reveal_with_fuel(pow16, 17);
        }
        assert(ps@.len() == ps.len());
    }
    push_hex(out, ps.len() as u64, 16);
    out.push(10u8);
    let ghost base = out@;
    let ghost t = ps@;
    proof {
        assert(base =~= old(out)@ + enc_hex(t.len(), 16) + nl());
    }
    let mut i: usize = 0;
    while i < ps.len()
        invariant
            0 <= i <= t.len(),
            t == ps@,
            out@ == base + enc_purchases(t.take(i as int)),
            base == old(out)@ + enc_hex(t.len(), 16) + nl(),
        decreases t.len() - i,
    {
        let ghost before = out@;
        let u = ps[i];
        push_hex(out, u.id as u64, 8);
        push_hex(out, u.product_id as u64, 8);
        push_hex(out, u.quantity as u64, 8);
        push_hex(out, u.purchase_price as u64, 8);
        push_hex(out, u.time, 16);
        out.push(10u8);
        proof {
            assert(out@ =~= before + enc_purchase(t[i as int]));
            assert(t.take(i + 1) =~= t.take(i as int) + seq![t[i as int]]);
            lemma_enc_purchases_append(t.take(i as int), seq![t[i as int]]);
            assert(seq![t[i as int]].skip(1) =~= Seq::<Purchase>::empty());
            assert(enc_purchases(Seq::<Purchase>::empty()) =~= Seq::<u8>::empty());
            assert(enc_purchase(t[i as int]) + Seq::<u8>::empty() =~= enc_purchase(t[i as int]));
            assert(enc_purchases(seq![t[i as int]]) =~= enc_purchase(t[i as int]));
        }
        i = i + 1;
    }
    proof {
        assert(t.take(t.len() as int) =~= t);
        assert(out@ =~= old(out)@ + enc_counted_purchases(t));
    }
}

/// Appends the count line and the manager records.
fn push_counted_managers(out: &mut Vec<u8>, ms: &Vec<Manager>)
    ensures
        final(out)@ == old(out)@ + enc_counted_managers(manager_views(ms@)),
        ms@.len() < pow16(16),
        forall|i: int|
            0 <= i < ms@.len() ==> (#[trigger] manager_views(ms@)[i]).username.len() < pow16(16)
                && manager_views(ms@)[i].password_hash.len() < pow16(16),
{
    proof {
        assert(pow16(16) == 0x10000000000000000) by {
            reveal_with_fuel(pow16, 17);
        }
        assert(ms@.len() == ms.len());
    }
    push_hex(out, ms.len() as u64, 16);
    out.push(10u8);
    let ghost base = out@;
    let ghost t = manager_views(ms@);
    proof {
        assert(base =~= old(out)@ + enc_hex(t.len(), 16) + nl());
    }
    let mut i: usize = 0;
    while i < ms.len()
        invariant
            0 <= i <= t.len(),
            t == manager_views(ms@),
            t.len() == ms@.len(),
            out@ == base + enc_managers(t.take(i as int)),
            base == old(out)@ + enc_hex(t.len(), 16) + nl(),
            forall|k: int|
                0 <= k < i ==> (#[trigger] t[k]).username.len() < pow16(16)
                    && t[k].password_hash.len() < pow16(16),
        decreases t.len() - i,
    {
        let ghost before = out@;
        let m = &ms[i];
        push_str_enc(out, m.username.as_str());
        push_str_enc(out, m.password_hash.as_str());
        out.push(10u8);
        proof {
            assert(out@ =~= before + enc_manager(t[i as int]));
            assert(t.take(i + 1) =~= t.take(i as int) + seq![t[i as int]]);
            lemma_enc_managers_append(t.take(i as int), seq![t[i as int]]);
            assert(seq![t[i as int]].skip(1) =~= Seq::<ManagerV>::empty());
            assert(enc_managers(Seq::<ManagerV>::empty()) =~= Seq::<u8>::empty());
            assert(enc_manager(t[i as int]) + Seq::<u8>::empty() =~= enc_manager(t[i as int]));
            assert(enc_managers(seq![t[i as int]]) =~= enc_manager(t[i as int]));
        }
        i = i + 1;
    }
    proof {
        assert(t.take(t.len() as int) =~= t);
        assert(out@ =~= old(out)@ + enc_counted_managers(t));
    }
}

impl Store {
    /// Serializes the whole store into snapshot bytes.
    pub fn to_snapshot(&self) -> (r: Vec<u8>)
        ensures
            r@ == enc_store(self@),
            encodable(self@),
    {
        proof {
            assert(pow16(16) == 0x10000000000000000) by {
                reveal_with_fuel(pow16, 17);
            }
        }
        let mut out: Vec<u8> = Vec::new();
        push_hex(&mut out, self.next_product_id as u64, 8);
        push_hex(&mut out, self.next_sale_id as u64, 8);
        push_hex(&mut out, self.next_purchase_id as u64, 8);
        out.push(10u8);
        proof {
            assert(out@ =~= enc_counters(self@));
        }
        push_counted_products(&mut out, &self.products);
        push_counted_sales(&mut out, &self.sales);
        push_counted_purchases(&mut out, &self.purchases);
        push_counted_managers(&mut out, &self.managers);
        proof {
            assert(out@ =~= enc_store(self@));
        }
        out
    }
}

fn read_u32(s: &Vec<u8>, pos: usize) -> (r: Option<(u32, usize)>)
    requires
        pos <= s@.len(),
    ensures
        match r {
            Some(vp) => parse_u32(s@.skip(pos as int)) == Some((vp.0, s@.skip(vp.1 as int)))
                && pos <= vp.1 <= s@.len(),
            None => parse_u32(s@.skip(pos as int)) is None,
        },
{
    match read_hex(s, pos, 8) {
        None => None,
        Some((v, p2)) => {
            proof {
                assert(pow16(8) == 0x100000000) by {
                    reveal_with_fuel(pow16, 9);
                }
            }
            Some((v as u32, p2))
        },
    }
}

fn read_u64(s: &Vec<u8>, pos: usize) -> (r: Option<(u64, usize)>)
    requires
        pos <= s@.len(),
    ensures
        match r {
            Some(vp) => parse_u64(s@.skip(pos as int)) == Some((vp.0, s@.skip(vp.1 as int)))
                && pos <= vp.1 <= s@.len(),
            None => parse_u64(s@.skip(pos as int)) is None,
        },
{
    match read_hex(s, pos, 16) {
        None => None,
        Some((v, p2)) => Some((v, p2)),
    }
}

fn read_nl(s: &Vec<u8>, pos: usize) -> (r: Option<usize>)
    requires
        pos <= s@.len(),
    ensures
        match r {
            Some(p2) => parse_nl(s@.skip(pos as int)) == Some(s@.skip(p2 as int)) && pos < p2
                <= s@.len(),
            None => parse_nl(s@.skip(pos as int)) is None,
        },
{
    if pos < s.len() {
        let b = s[pos];
        proof {
            assert(s@.skip(pos as int)[0] == s@[pos as int]);
        }
        if b == 10 {
            proof {
                assert(s@.skip(pos as int).skip(1) =~= s@.skip(pos + 1));
            }
            Some(pos + 1)
        } else {
            None
        }
    } else {
        None
    }
}

fn read_product(s: &Vec<u8>, pos: usize) -> (r: Option<(Product, usize)>)
    requires
        pos <= s@.len(),
    ensures
        match r {
            Some(vp) => parse_product(s@.skip(pos as int)) == Some((vp.0@, s@.skip(vp.1 as int)))
                && pos <= vp.1 <= s@.len(),
            None => parse_product(s@.skip(pos as int)) is None,
        },
{
    let (id, p1) = match read_u32(s, pos) {
        Some(x) => x,
        None => {
            return None;
        },
    };
    let (name, p2) = match read_str(s, p1) {
        Some(x) => x,
        None => {
            return None;
        },
    };
    let (description, p3) = match read_str(s, p2) {
        Some(x) => x,
        None => {
            return None;
        },
    };
    let (price, p4) = match read_u32(s, p3) {
        Some(x) => x,
        None => {
            return None;
        },
    };
    let (quantity, p5) = match read_u32(s, p4) {
        Some(x) => x,
        None => {
            return None;
        },
    };
    let p6 = match read_nl(s, p5) {
        Some(x) => x,
        None => {
            return None;
        },
    };
    Some((Product { id, name, description, price, quantity }, p6))
}

fn read_sale(s: &Vec<u8>, pos: usize) -> (r: Option<(Sale, usize)>)
    requires
        pos <= s@.len(),
    ensures
        match r {
            Some(vp) => parse_sale(s@.skip(pos as int)) == Some((vp.0, s@.skip(vp.1 as int)))
                && pos <= vp.1 <= s@.len(),
            None => parse_sale(s@.skip(pos as int)) is None,
        },
{
    let (id, p1) = match read_u32(s, pos) {
        Some(x) => x,
        None => {
            return None;
        },
    };
    let (product_id, p2) = match read_u32(s, p1) {
        Some(x) => x,
        None => {
            return None;
        },
    };
    let (quantity, p3) = match read_u32(s, p2) {
        Some(x) => x,
        None => {
            return None;
        },
    };
    let (sale_price, p4) = match read_u32(s, p3) {
        Some(x) => x,
        None => {
            return None;
        },
    };
    let (time, p5) = match read_u64(s, p4) {
        Some(x) => x,
        None => {
            return None;
        },
    };
    let p6 = match read_nl(s, p5) {
        Some(x) => x,
        None => {
            return None;
        },
    };
    Some((Sale { id, product_id, quantity, sale_price, time }, p6))
}

fn read_purchase(s: &Vec<u8>, pos: usize) -> (r: Option<(Purchase, usize)>)
    requires
        pos <= s@.len(),
    ensures
        match r {
            Some(vp) => parse_purchase(s@.skip(pos as int)) == Some((vp.0, s@.skip(vp.1 as int)))
                && pos <= vp.1 <= s@.len(),
            None => parse_purchase(s@.skip(pos as int)) is None,
        },
{
    let (id, p1) = match read_u32(s, pos) {
        Some(x) => x,
        None => {
            return None;
        },
    };
    let (product_id, p2) = match read_u32(s, p1) {
        Some(x) => x,
        None => {
            return None;
        },
    };
    let (quantity, p3) = match read_u32(s, p2) {
        Some(x) => x,
        None => {
            return None;
        },
    };
    let (purchase_price, p4) = match read_u32(s, p3) {
        Some(x) => x,
        None => {
            return None;
        },
    };
    let (time, p5) = match read_u64(s, p4) {
        Some(x) => x,
        None => {
            return None;
        },
    };
    let p6 = match read_nl(s, p5) {
        Some(x) => x,
        None => {
            return None;
        },
    };
    Some((Purchase { id, product_id, quantity, purchase_price, time }, p6))
}

fn read_manager(s: &Vec<u8>, pos: usize) -> (r: Option<(Manager, usize)>)
    requires
        pos <= s@.len(),
    ensures
        match r {
            Some(vp) => parse_manager(s@.skip(pos as int)) == Some((vp.0@, s@.skip(vp.1 as int)))
                && pos <= vp.1 <= s@.len(),
            None => parse_manager(s@.skip(pos as int)) is None,
        },
{
    let (username, p1) = match read_str(s, pos) {
        Some(x) => x,
        None => {
            return None;
        },
    };
    let (password_hash, p2) = match read_str(s, p1) {
        Some(x) => x,
        None => {
            return None;
        },
    };
    let p3 = match read_nl(s, p2) {
        Some(x) => x,
        None => {
            return None;
        },
    };
    Some((Manager { username, password_hash }, p3))
}

fn read_counted_products(s: &Vec<u8>, pos: usize) -> (r: Option<(Vec<Product>, usize)>)
    requires
        pos <= s@.len(),
    ensures
        match r {
            Some(vp) => parse_counted_products(s@.skip(pos as int)) == Some(
                (product_views(vp.0@), s@.skip(vp.1 as int)),
            ) && pos <= vp.1 <= s@.len(),
            None => parse_counted_products(s@.skip(pos as int)) is None,
        },
{
    let (n, p1) = match read_u64(s, pos) {
        Some(x) => x,
        None => {
            return None;
        },
    };
    let start = match read_nl(s, p1) {
        Some(x) => x,
        None => {
            return None;
        },
    };
    let mut acc: Vec<Product> = Vec::new();
    let mut cur: usize = start;
    let mut i: u64 = 0;
    while i < n
        invariant
            0 <= i <= n,
            pos <= cur <= s@.len(),
            start <= s@.len(),
            parse_u64(s@.skip(pos as int)) == Some((n, s@.skip(p1 as int))),
            parse_nl(s@.skip(p1 as int)) == Some(s@.skip(start as int)),
            acc@.len() == i,
            match parse_products(s@.skip(cur as int), (n - i) as nat) {
                Some(tr) => parse_products(s@.skip(start as int), n as nat) == Some(
                    (product_views(acc@) + tr.0, tr.1),
                ),
                None => parse_products(s@.skip(start as int), n as nat) is None,
            },
        decreases n - i,
    {
        match read_product(s, cur) {
            None => {
                return None;
            },
            Some((p, c2)) => {
                proof {
                    let rem = s@.skip(cur as int);
                    assert(parse_products(rem, (n - i) as nat) == match parse_products(
                        s@.skip(c2 as int),
                        (n - i - 1) as nat,
                    ) {
                        Some(tr) => Some((seq![p@] + tr.0, tr.1)),
                        None => None,
                    });
                    assert(product_views(acc@.push(p)) =~= product_views(acc@).push(p@));
                    if parse_products(s@.skip(c2 as int), (n - i - 1) as nat) is Some {
                        let tr = parse_products(s@.skip(c2 as int), (n - i - 1) as nat)->Some_0;
                        assert(product_views(acc@) + (seq![p@] + tr.0) =~= product_views(acc@).push(p@) + tr.0);
                    }
                }
                acc.push(p);
                cur = c2;
                i = i + 1;
            },
        }
    }
    proof {
        assert(parse_products(s@.skip(cur as int), 0) == Some(
            (Seq::<ProductV>::empty(), s@.skip(cur as int)),
        ));
        assert(product_views(acc@) + Seq::<ProductV>::empty() =~= product_views(acc@));
    }
    Some((acc, cur))
}

fn read_counted_sales(s: &Vec<u8>, pos: usize) -> (r: Option<(Vec<Sale>, usize)>)
    requires
        pos <= s@.len(),
    ensures
        match r {
            Some(vp) => parse_counted_sales(s@.skip(pos as int)) == Some(
                (vp.0@, s@.skip(vp.1 as int)),
            ) && pos <= vp.1 <= s@.len(),
            None => parse_counted_sales(s@.skip(pos as int)) is None,
        },
{
    let (n, p1) = match read_u64(s, pos) {
        Some(x) => x,
        None => {
            return None;
        },
    };
    let start = match read_nl(s, p1) {
        Some(x) => x,
        None => {
            return None;
        },
    };
    let mut acc: Vec<Sale> = Vec::new();
    let mut cur: usize = start;
    let mut i: u64 = 0;
    while i < n
        invariant
            0 <= i <= n,
            pos <= cur <= s@.len(),
            start <= s@.len(),
            parse_u64(s@.skip(pos as int)) == Some((n, s@.skip(p1 as int))),
            parse_nl(s@.skip(p1 as int)) == Some(s@.skip(start as int)),
            acc@.len() == i,
            match parse_sales(s@.skip(cur as int), (n - i) as nat) {
                Some(tr) => parse_sales(s@.skip(start as int), n as nat) == Some(
                    (acc@ + tr.0, tr.1),
                ),
                None => parse_sales(s@.skip(start as int), n as nat) is None,
            },
        decreases n - i,
    {
        match read_sale(s, cur) {
            None => {
                return None;
            },
            Some((p, c2)) => {
                proof {
                    let rem = s@.skip(cur as int);
                    assert(parse_sales(rem, (n - i) as nat) == match parse_sales(
                        s@.skip(c2 as int),
                        (n - i - 1) as nat,
                    ) {
                        Some(tr) => Some((seq![p] + tr.0, tr.1)),
                        None => None,
                    });
                    assert(acc@.push(p) =~= acc@.push(p));
                    if parse_sales(s@.skip(c2 as int), (n - i - 1) as nat) is Some {
                        let tr = parse_sales(s@.skip(c2 as int), (n - i - 1) as nat)->Some_0;
                        assert(acc@ + (seq![p] + tr.0) =~= acc@.push(p) + tr.0);
                    }
                }
                acc.push(p);
                cur = c2;
                i = i + 1;
            },
        }
    }
    proof {
        assert(parse_sales(s@.skip(cur as int), 0) == Some(
            (Seq::<Sale>::empty(), s@.skip(cur as int)),
        ));
        assert(acc@ + Seq::<Sale>::empty() =~= acc@);
    }
    Some((acc, cur))
}

fn read_counted_purchases(s: &Vec<u8>, pos: usize) -> (r: Option<(Vec<Purchase>, usize)>)
    requires
        pos <= s@.len(),
    ensures
        match r {
            Some(vp) => parse_counted_purchases(s@.skip(pos as int)) == Some(
                (vp.0@, s@.skip(vp.1 as int)),
            ) && pos <= vp.1 <= s@.len(),
            None => parse_counted_purchases(s@.skip(pos as int)) is None,
        },
{
    let (n, p1) = match read_u64(s, pos) {
        Some(x) => x,
        None => {
            return None;
        },
    };
    let start = match read_nl(s, p1) {
        Some(x) => x,
        None => {
            return None;
        },
    };
    let mut acc: Vec<Purchase> = Vec::new();
    let mut cur: usize = start;
    let mut i: u64 = 0;
    while i < n
        invariant
            0 <= i <= n,
            pos <= cur <= s@.len(),
            start <= s@.len(),
            parse_u64(s@.skip(pos as int)) == Some((n, s@.skip(p1 as int))),
            parse_nl(s@.skip(p1 as int)) == Some(s@.skip(start as int)),
            acc@.len() == i,
            match parse_purchases(s@.skip(cur as int), (n - i) as nat) {
                Some(tr) => parse_purchases(s@.skip(start as int), n as nat) == Some(
                    (acc@ + tr.0, tr.1),
                ),
                None => parse_purchases(s@.skip(start as int), n as nat) is None,
            },
        decreases n - i,
    {
        match read_purchase(s, cur) {
            None => {
                return None;
            },
            Some((p, c2)) => {
                proof {
                    let rem = s@.skip(cur as int);
                    assert(parse_purchases(rem, (n - i) as nat) == match parse_purchases(
                        s@.skip(c2 as int),
                        (n - i - 1) as nat,
                    ) {
                        Some(tr) => Some((seq![p] + tr.0, tr.1)),
                        None => None,
                    });
                    assert(acc@.push(p) =~= acc@.push(p));
                    if parse_purchases(s@.skip(c2 as int), (n - i - 1) as nat) is Some {
                        let tr = parse_purchases(s@.skip(c2 as int), (n - i - 1) as nat)->Some_0;
                        assert(acc@ + (seq![p] + tr.0) =~= acc@.push(p) + tr.0);
                    }
                }
                acc.push(p);
                cur = c2;
                i = i + 1;
            },
        }
    }
    proof {
        assert(parse_purchases(s@.skip(cur as int), 0) == Some(
            (Seq::<Purchase>::empty(), s@.skip(cur as int)),
        ));
        assert(acc@ + Seq::<Purchase>::empty() =~= acc@);
    }
    Some((acc, cur))
}

fn read_counted_managers(s: &Vec<u8>, pos: usize) -> (r: Option<(Vec<Manager>, usize)>)
    requires
        pos <= s@.len(),
    ensures
        match r {
            Some(vp) => parse_counted_managers(s@.skip(pos as int)) == Some(
                (manager_views(vp.0@), s@.skip(vp.1 as int)),
            ) && pos <= vp.1 <= s@.len(),
            None => parse_counted_managers(s@.skip(pos as int)) is None,
        },
{
    let (n, p1) = match read_u64(s, pos) {
        Some(x) => x,
        None => {
            return None;
        },
    };
    let start = match read_nl(s, p1) {
        Some(x) => x,
        None => {
            return None;
        },
    };
    let mut acc: Vec<Manager> = Vec::new();
    let mut cur: usize = start;
    let mut i: u64 = 0;
    while i < n
        invariant
            0 <= i <= n,
            pos <= cur <= s@.len(),
            start <= s@.len(),
            parse_u64(s@.skip(pos as int)) == Some((n, s@.skip(p1 as int))),
            parse_nl(s@.skip(p1 as int)) == Some(s@.skip(start as int)),
            acc@.len() == i,
            match parse_managers(s@.skip(cur as int), (n - i) as nat) {
                Some(tr) => parse_managers(s@.skip(start as int), n as nat) == Some(
                    (manager_views(acc@) + tr.0, tr.1),
                ),
                None => parse_managers(s@.skip(start as int), n as nat) is None,
            },
        decreases n - i,
    {
        match read_manager(s, cur) {
            None => {
                return None;
            },
            Some((p, c2)) => {
                proof {
                    let rem = s@.skip(cur as int);
                    assert(parse_managers(rem, (n - i) as nat) == match parse_managers(
                        s@.skip(c2 as int),
                        (n - i - 1) as nat,
                    ) {
                        Some(tr) => Some((seq![p@] + tr.0, tr.1)),
                        None => None,
                    });
                    assert(manager_views(acc@.push(p)) =~= manager_views(acc@).push(p@));
                    if parse_managers(s@.skip(c2 as int), (n - i - 1) as nat) is Some {
                        let tr = parse_managers(s@.skip(c2 as int), (n - i - 1) as nat)->Some_0;
                        assert(manager_views(acc@) + (seq![p@] + tr.0) =~= manager_views(acc@).push(p@) + tr.0);
                    }
                }
                acc.push(p);
                cur = c2;
                i = i + 1;
            },
        }
    }
    proof {
        assert(parse_managers(s@.skip(cur as int), 0) == Some(
            (Seq::<ManagerV>::empty(), s@.skip(cur as int)),
        ));
        assert(manager_views(acc@) + Seq::<ManagerV>::empty() =~= manager_views(acc@));
    }
    Some((acc, cur))
}

impl Store {
    /// Rebuilds a store from snapshot bytes; rejects bytes that are not a
    /// complete snapshot of a store satisfying the invariants.
    pub fn from_snapshot(bytes: &Vec<u8>) -> (r: Result<Store, StoreError>)
        ensures
            match parse_store(bytes@) {
                Some(v) => if v.wf() {
                    r matches Ok(s) && s@ == v
                } else {
                    r == Err::<Store, StoreError>(StoreError::IoError)
                },
                None => r == Err::<Store, StoreError>(StoreError::IoError),
            },
    {
        proof {
            assert(bytes@.skip(0) =~= bytes@);
        }
        let (next_product_id, c1) = match read_u32(bytes, 0) {
            Some(x) => x,
            None => {
                return Err(StoreError::IoError);
            },
        };
        let (next_sale_id, c2) = match read_u32(bytes, c1) {
            Some(x) => x,
            None => {
                return Err(StoreError::IoError);
            },
        };
        let (next_purchase_id, c3) = match read_u32(bytes, c2) {
            Some(x) => x,
            None => {
                return Err(StoreError::IoError);
            },
        };
        let h = match read_nl(bytes, c3) {
            Some(x) => x,
            None => {
                return Err(StoreError::IoError);
            },
        };
        let (products, p1) = match read_counted_products(bytes, h) {
            Some(x) => x,
            None => {
                return Err(StoreError::IoError);
            },
        };
        let (sales, p2) = match read_counted_sales(bytes, p1) {
            Some(x) => x,
            None => {
                return Err(StoreError::IoError);
            },
        };
        let (purchases, p3) = match read_counted_purchases(bytes, p2) {
            Some(x) => x,
            None => {
                return Err(StoreError::IoError);
            },
        };
        let (managers, p4) = match read_counted_managers(bytes, p3) {
            Some(x) => x,
            None => {
                return Err(StoreError::IoError);
            },
        };
        if p4 != bytes.len() {
            return Err(StoreError::IoError);
        }
        let store = Store {
            products,
            sales,
            purchases,
            managers,
            next_product_id,
            next_sale_id,
            next_purchase_id,
        };
        if store.check_invariants() {
            Ok(store)
        } else {
            Err(StoreError::IoError)
        }
    }
}

} // verus!
