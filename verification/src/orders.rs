use vstd::prelude::*;

verus! {

/// One gift order: which region it is for, which gift, and how many.
pub struct Order {
    pub id: i32,
    pub region_id: i32,
    pub gift_name: String,
    pub quantity: i32,
}

/// The answer to the order-total query.
pub struct Total {
    pub total: i64,
}

/// The answer to the most-popular-gift query.
pub struct Popular {
    pub popular: Option<String>,
}

/// The sum of the quantities of a list of orders.
pub open spec fn sum_quantity(s: Seq<Order>) -> int
    decreases s.len(),
{
    if s.len() == 0 {
        0
    } else {
        sum_quantity(s.drop_last()) + s.last().quantity
    }
}

/// The sum of the quantities of the orders for one gift name.
pub open spec fn gift_total(s: Seq<Order>, name: Seq<char>) -> int
    decreases s.len(),
{
    if s.len() == 0 {
        0
    } else {
        gift_total(s.drop_last(), name) + (if s.last().gift_name@ == name {
            s.last().quantity as int
        } else {
            0
        })
    }
}

/// Quantity sums grow at most one order's worth per order.
proof fn lemma_sum_quantity_bound(s: Seq<Order>)
    ensures
        -(s.len() * 0x8000_0000) <= sum_quantity(s) <= s.len() * 0x8000_0000,
    decreases s.len(),
{
    if s.len() > 0 {
        lemma_sum_quantity_bound(s.drop_last());
    }
}

/// Per-gift sums grow at most one order's worth per order.
proof fn lemma_gift_total_bound(s: Seq<Order>, name: Seq<char>)
    ensures
        -(s.len() * 0x8000_0000) <= gift_total(s, name) <= s.len() * 0x8000_0000,
    decreases s.len(),
{
    if s.len() > 0 {
        lemma_gift_total_bound(s.drop_last(), name);
    }
}

/// The total number of gifts ordered, over all orders.
pub fn total_quantity(orders: &Vec<Order>) -> (t: Total)
    requires
        orders@.len() <= 0x7fff_ffff,
    ensures
        t.total == sum_quantity(orders@),
{
    let n = orders.len();
    let mut acc: i64 = 0;
    let mut i: usize = 0;
    while i < n
        invariant
            n == orders@.len(),
            n <= 0x7fff_ffff,
            i <= n,
            acc == sum_quantity(orders@.take(i as int)),
        decreases n - i,
    {
        proof {
            lemma_sum_quantity_bound(orders@.take(i as int));
        }
        acc = acc + orders[i].quantity as i64;
        proof {
            assert(orders@.take(i + 1).drop_last() =~= orders@.take(i as int));
            assert(orders@.take(i + 1).last() == orders@[i as int]);
        }
        i = i + 1;
    }
    proof {
        assert(orders@.take(n as int) =~= orders@);
    }
    Total { total: acc }
}

/// The number of gifts ordered under one gift name.
fn gift_total_exec(orders: &Vec<Order>, name: &String) -> (t: i64)
    requires
        orders@.len() <= 0x7fff_ffff,
    ensures
        t == gift_total(orders@, name@),
{
    let n = orders.len();
    let mut acc: i64 = 0;
    let mut i: usize = 0;
    while i < n
        invariant
            n == orders@.len(),
            n <= 0x7fff_ffff,
            i <= n,
            acc == gift_total(orders@.take(i as int), name@),
        decreases n - i,
    {
        proof {
            lemma_gift_total_bound(orders@.take(i as int), name@);
        }
        if orders[i].gift_name == *name {
            acc = acc + orders[i].quantity as i64;
        }
        proof {
            assert(orders@.take(i + 1).drop_last() =~= orders@.take(i as int));
            assert(orders@.take(i + 1).last() == orders@[i as int]);
        }
        i = i + 1;
    }
    proof {
        assert(orders@.take(n as int) =~= orders@);
    }
    acc
}

/// The most popular gift: a gift name that appears in the orders and
/// whose summed quantity is at least that of every other gift named in
/// them.  `None` exactly when there are no orders.
pub fn popular_gift(orders: &Vec<Order>) -> (p: Popular)
    requires
        orders@.len() <= 0x7fff_ffff,
    ensures
        match p.popular {
            Some(g) => {
                &&& exists|j: int|
                    0 <= j < orders@.len() && (#[trigger] orders@[j].gift_name)@ == g@
                &&& forall|j: int|
                    0 <= j < orders@.len() ==> gift_total(
                        orders@,
                        (#[trigger] orders@[j].gift_name)@,
                    ) <= gift_total(orders@, g@)
            },
            None => orders@.len() == 0,
        },
{
    let n = orders.len();
    if n == 0 {
        return Popular { popular: None };
    }
    let mut best_idx: usize = 0;
    let mut best_total: i64 = gift_total_exec(orders, &orders[0].gift_name);
    let mut j: usize = 1;
    while j < n
        invariant
            n == orders@.len(),
            n <= 0x7fff_ffff,
            1 <= j <= n,
            best_idx < j,
            best_total == gift_total(orders@, orders@[best_idx as int].gift_name@),
            forall|k: int|
                0 <= k < j ==> gift_total(orders@, (#[trigger] orders@[k].gift_name)@)
                    <= best_total,
        decreases n - j,
    {
        let t = gift_total_exec(orders, &orders[j].gift_name);
        if t > best_total {
            best_idx = j;
            best_total = t;
        }
        j = j + 1;
    }
    Popular { popular: Some(orders[best_idx].gift_name.clone()) }
}

} // verus!
