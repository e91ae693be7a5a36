use vstd::prelude::*;
use vstd::string::StrSliceExecFns;

use crate::orders::Order;
use crate::sorting::{
    insert_into, insert_ordered, is_ordered, lemma_insertion_is_ordered,
    lemma_ordered_by_insertion_len, ordered_by_insertion, total_order, transitive_order, Ranked,
};

verus! {

/// One delivery region: its identifier and its name.
#[verifier::ext_equal]
pub struct Region {
    pub id: i32,
    pub name: String,
}

/// One row of the per-region totals: the region's name and how many
/// gifts were ordered for it.
#[verifier::ext_equal]
pub struct RegionResult {
    pub name: Option<String>,
    pub total: Option<i64>,
}

/// The sum of the quantities of the orders for one region.
pub open spec fn region_total(orders: Seq<Order>, region_id: i32) -> int
    decreases orders.len(),
{
    if orders.len() == 0 {
        0
    } else {
        region_total(orders.drop_last(), region_id) + (if orders.last().region_id == region_id {
            orders.last().quantity as int
        } else {
            0
        })
    }
}

/// Whether any order names this region.
pub open spec fn has_region_order(orders: Seq<Order>, region_id: i32) -> bool {
    exists|j: int| 0 <= j < orders.len() && (#[trigger] orders[j]).region_id == region_id
}

/// Per-region sums grow at most one order's worth per order.
proof fn lemma_region_total_bound(orders: Seq<Order>, region_id: i32)
    ensures
        -(orders.len() * 0x8000_0000) <= region_total(orders, region_id) <= orders.len()
            * 0x8000_0000,
    decreases orders.len(),
{
    if orders.len() > 0 {
        lemma_region_total_bound(orders.drop_last(), region_id);
    }
}

/// The totals row of each region that has at least one order, in the
/// order the regions were given.
pub open spec fn rows_of(regions: Seq<Region>, orders: Seq<Order>) -> Seq<RegionResult>
    decreases regions.len(),
{
    if regions.len() == 0 {
        Seq::empty()
    } else {
        rows_of(regions.drop_last(), orders) + (if has_region_order(orders, regions.last().id) {
            seq![
                RegionResult {
                    name: Some(regions.last().name),
                    total: Some(region_total(orders, regions.last().id) as i64),
                },
            ]
        } else {
            Seq::empty()
        })
    }
}

/// Character-wise lexicographic order on texts.
pub open spec fn lex_le(a: Seq<char>, b: Seq<char>) -> bool
    decreases a.len(),
{
    if a.len() == 0 {
        true
    } else if b.len() == 0 {
        false
    } else if a[0] != b[0] {
        a[0] < b[0]
    } else {
        lex_le(a.skip(1), b.skip(1))
    }
}

/// Any two texts compare one way or the other.
pub proof fn lemma_lex_le_total(a: Seq<char>, b: Seq<char>)
    ensures
        lex_le(a, b) || lex_le(b, a),
    decreases a.len(),
{
    if a.len() > 0 && b.len() > 0 && a[0] == b[0] {
        lemma_lex_le_total(a.skip(1), b.skip(1));
    }
}

/// The lexicographic order is transitive.
pub proof fn lemma_lex_le_trans(a: Seq<char>, b: Seq<char>, c: Seq<char>)
    requires
        lex_le(a, b),
        lex_le(b, c),
    ensures
        lex_le(a, c),
    decreases a.len(),
{
    if a.len() > 0 && b.len() > 0 && c.len() > 0 && a[0] == b[0] && b[0] == c[0] {
        lemma_lex_le_trans(a.skip(1), b.skip(1), c.skip(1));
    }
}

/// Whether one text comes at or before another in lexicographic order.
pub fn str_le(a: &str, b: &str) -> (r: bool)
    ensures
        r == lex_le(a@, b@),
{
    let an = a.unicode_len();
    let bn = b.unicode_len();
    let mut i: usize = 0;
    proof {
        assert(a@.skip(0) =~= a@);
        assert(b@.skip(0) =~= b@);
    }
    while i < an && i < bn
        invariant
            an == a@.len(),
            bn == b@.len(),
            i <= an,
            i <= bn,
            lex_le(a@, b@) == lex_le(a@.skip(i as int), b@.skip(i as int)),
        decreases an - i,
    {
        let ca = a.get_char(i);
        let cb = b.get_char(i);
        proof {
            assert(a@.skip(i as int)[0] == a@[i as int]);
            assert(b@.skip(i as int)[0] == b@[i as int]);
            assert(a@.skip(i as int).skip(1) =~= a@.skip(i + 1));
            assert(b@.skip(i as int).skip(1) =~= b@.skip(i + 1));
        }
        if ca != cb {
            return ca < cb;
        }
        i = i + 1;
    }
    proof {
        if i >= an {
            assert(a@.skip(i as int).len() == 0);
        } else {
            assert(b@.skip(i as int).len() == 0);
            assert(a@.skip(i as int).len() > 0);
        }
    }
    an <= bn
}

/// The name a totals row is ordered by.
pub open spec fn row_key(r: RegionResult) -> Seq<char> {
    match r.name {
        Some(n) => n@,
        None => Seq::empty(),
    }
}

impl Ranked for RegionResult {
    /// Totals rows are ordered by region name.
    open spec fn precedes(&self, other: &Self) -> bool {
        lex_le(row_key(*self), row_key(*other))
    }

    fn precedes_exec(&self, other: &Self) -> (r: bool)
        ensures
            r == self.precedes(other),
    {
        let a = match &self.name {
            Some(n) => n.as_str(),
            None => "",
        };
        let b = match &other.name {
            Some(n) => n.as_str(),
            None => "",
        };
        proof {
            reveal_strlit("");
            assert(""@ =~= Seq::<char>::empty());
        }
        str_le(a, b)
    }
}

/// The name ordering of totals rows is total and transitive.
proof fn lemma_region_result_order()
    ensures
        total_order::<RegionResult>(),
        transitive_order::<RegionResult>(),
{
    assert forall|a: RegionResult, b: RegionResult| #[trigger] a.precedes(&b) || #[trigger] b.precedes(&a) by {
        lemma_lex_le_total(row_key(a), row_key(b));
    }
    assert forall|a: RegionResult, b: RegionResult, c: RegionResult|
        #[trigger] a.precedes(&b) && #[trigger] b.precedes(&c) implies #[trigger] a.precedes(&c) by {
        lemma_lex_le_trans(row_key(a), row_key(b), row_key(c));
    }
}

/// The gifts ordered for one region: its summed quantity, and whether any
/// order names it at all.
fn region_total_exec(orders: &Vec<Order>, region_id: i32) -> (r: (i64, bool))
    requires
        orders@.len() <= 0x7fff_ffff,
    ensures
        r.0 == region_total(orders@, region_id),
        r.1 == has_region_order(orders@, region_id),
{
    let n = orders.len();
    let mut acc: i64 = 0;
    let mut found = false;
    let mut i: usize = 0;
    while i < n
        invariant
            n == orders@.len(),
            n <= 0x7fff_ffff,
            i <= n,
            acc == region_total(orders@.take(i as int), region_id),
            found == has_region_order(orders@.take(i as int), region_id),
        decreases n - i,
    {
        proof {
            lemma_region_total_bound(orders@.take(i as int), region_id);
        }
        if orders[i].region_id == region_id {
            acc = acc + orders[i].quantity as i64;
            found = true;
        }
        proof {
            assert(orders@.take(i + 1).drop_last() =~= orders@.take(i as int));
            assert(orders@.take(i + 1).last() == orders@[i as int]);
            assert(found == has_region_order(orders@.take(i + 1), region_id)) by {
                if has_region_order(orders@.take(i + 1), region_id) {
                    let j = choose|j: int|
                        0 <= j < orders@.take(i + 1).len() && (#[trigger] orders@.take(
                            i + 1,
                        )[j]).region_id == region_id;
                    if j < i {
                        assert(orders@.take(i as int)[j].region_id == region_id);
                    }
                }
                if has_region_order(orders@.take(i as int), region_id) {
                    let j = choose|j: int|
                        0 <= j < orders@.take(i as int).len() && (#[trigger] orders@.take(
                            i as int,
                        )[j]).region_id == region_id;
                    assert(orders@.take(i + 1)[j].region_id == region_id);
                }
            }
        }
        i = i + 1;
    }
    proof {
        assert(orders@.take(n as int) =~= orders@);
    }
    (acc, found)
}

/// The per-region totals report: one row per region that has at least
/// one order, carrying the region's name and its summed quantity,
/// ordered by name.
pub fn region_totals(regions: &Vec<Region>, orders: &Vec<Order>) -> (r: Vec<RegionResult>)
    requires
        orders@.len() <= 0x7fff_ffff,
    ensures
        r@ == ordered_by_insertion(rows_of(regions@, orders@)),
        is_ordered(r@),
{
    let ghost regs = regions@;
    let mut out: Vec<RegionResult> = Vec::new();
    let n = regions.len();
    proof {
        assert(rows_of(regs.take(0), orders@) =~= Seq::<RegionResult>::empty());
        assert(rows_of(regs.take(0), orders@).len() == 0);
        assert(ordered_by_insertion(rows_of(regs.take(0), orders@))
            =~= Seq::<RegionResult>::empty());
        assert(out@ =~= ordered_by_insertion(rows_of(regs.take(0), orders@)));
    }
    let mut idx: usize = 0;
    while idx < n
        invariant
            n == regs.len(),
            regs == regions@,
            idx <= n,
            orders@.len() <= 0x7fff_ffff,
            out@ == ordered_by_insertion(rows_of(regs.take(idx as int), orders@)),
        decreases n - idx,
    {
        let (total, found) = region_total_exec(orders, regions[idx].id);
        let ghost prev_rows = rows_of(regs.take(idx as int), orders@);
        proof {
            assert(regs.take(idx + 1).drop_last() =~= regs.take(idx as int));
            assert(regs.take(idx + 1).last() == regs[idx as int]);
        }
        if found {
            let row = RegionResult { name: Some(regions[idx].name.clone()), total: Some(total) };
            proof {
                assert(rows_of(regs.take(idx + 1), orders@) =~= prev_rows.push(row));
                assert(rows_of(regs.take(idx + 1), orders@).drop_last() =~= prev_rows);
                assert(ordered_by_insertion(rows_of(regs.take(idx + 1), orders@))
                    == insert_ordered(row, ordered_by_insertion(prev_rows)));
            }
            insert_into(&mut out, row);
        } else {
            proof {
                assert(rows_of(regs.take(idx + 1), orders@) =~= prev_rows);
            }
        }
        idx = idx + 1;
    }
    proof {
        assert(regs.take(n as int) =~= regs);
        lemma_region_result_order();
        lemma_insertion_is_ordered(rows_of(regs, orders@));
    }
    out
}

/// One ranked gift of a region: its name and its summed quantity.
#[verifier::ext_equal]
pub struct GiftRank {
    pub gift: String,
    pub total: i64,
}

/// One row of the top-gifts report: the region's name and its most
/// ordered gifts, best first.
#[verifier::ext_equal]
pub struct TopResponse {
    pub region: Option<String>,
    pub top_gifts: Option<Vec<String>>,
}

/// The sum of the quantities of one gift's orders for one region.
pub open spec fn gift_region_total(orders: Seq<Order>, region_id: i32, name: Seq<char>) -> int
    decreases orders.len(),
{
    if orders.len() == 0 {
        0
    } else {
        gift_region_total(orders.drop_last(), region_id, name) + (if orders.last().region_id
            == region_id && orders.last().gift_name@ == name {
            orders.last().quantity as int
        } else {
            0
        })
    }
}

/// Per-gift sums grow at most one order's worth per order.
proof fn lemma_gift_region_total_bound(orders: Seq<Order>, region_id: i32, name: Seq<char>)
    ensures
        -(orders.len() * 0x8000_0000) <= gift_region_total(orders, region_id, name) <= orders.len()
            * 0x8000_0000,
    decreases orders.len(),
{
    if orders.len() > 0 {
        lemma_gift_region_total_bound(orders.drop_last(), region_id, name);
    }
}

/// Whether the list of names already holds this name.
pub open spec fn contains_name(names: Seq<String>, n: Seq<char>) -> bool {
    exists|i: int| 0 <= i < names.len() && (#[trigger] names[i])@ == n
}

/// The distinct gift names of one region's orders, first appearance
/// first.
pub open spec fn region_gifts(orders: Seq<Order>, region_id: i32) -> Seq<String>
    decreases orders.len(),
{
    if orders.len() == 0 {
        Seq::empty()
    } else {
        let rest = region_gifts(orders.drop_last(), region_id);
        if orders.last().region_id != region_id {
            rest
        } else if contains_name(rest, orders.last().gift_name@) {
            rest
        } else {
            rest.push(orders.last().gift_name)
        }
    }
}

/// A region has at most one distinct gift per order.
proof fn lemma_region_gifts_len(orders: Seq<Order>, region_id: i32)
    ensures
        region_gifts(orders, region_id).len() <= orders.len(),
    decreases orders.len(),
{
    if orders.len() > 0 {
        lemma_region_gifts_len(orders.drop_last(), region_id);
    }
}

/// Each gift name paired with its regional total.
pub open spec fn gift_ranks(orders: Seq<Order>, region_id: i32, gifts: Seq<String>) -> Seq<
    GiftRank,
> {
    gifts.map_values(
        |g: String|
            GiftRank { gift: g, total: gift_region_total(orders, region_id, g@) as i64 },
    )
}

impl Ranked for GiftRank {
    /// More ordered gifts come first; equally ordered gifts go by name.
    open spec fn precedes(&self, other: &Self) -> bool {
        self.total > other.total || (self.total == other.total && lex_le(self.gift@, other.gift@))
    }

    fn precedes_exec(&self, other: &Self) -> (r: bool)
        ensures
            r == self.precedes(other),
    {
        if self.total > other.total {
            true
        } else if self.total == other.total {
            str_le(self.gift.as_str(), other.gift.as_str())
        } else {
            false
        }
    }
}

/// The gift ranking is total and transitive.
proof fn lemma_gift_rank_order()
    ensures
        total_order::<GiftRank>(),
        transitive_order::<GiftRank>(),
{
    assert forall|a: GiftRank, b: GiftRank| #[trigger] a.precedes(&b) || #[trigger] b.precedes(&a) by {
        lemma_lex_le_total(a.gift@, b.gift@);
    }
    assert forall|a: GiftRank, b: GiftRank, c: GiftRank|
        #[trigger] a.precedes(&b) && #[trigger] b.precedes(&c) implies #[trigger] a.precedes(&c) by {
        if a.total == b.total && b.total == c.total {
            lemma_lex_le_trans(a.gift@, b.gift@, c.gift@);
        }
    }
}

impl Ranked for Region {
    /// Regions are ordered by name.
    open spec fn precedes(&self, other: &Self) -> bool {
        lex_le(self.name@, other.name@)
    }

    fn precedes_exec(&self, other: &Self) -> (r: bool)
        ensures
            r == self.precedes(other),
    {
        str_le(self.name.as_str(), other.name.as_str())
    }
}

/// The region-name ordering is total and transitive.
proof fn lemma_region_order()
    ensures
        total_order::<Region>(),
        transitive_order::<Region>(),
{
    assert forall|a: Region, b: Region| #[trigger] a.precedes(&b) || #[trigger] b.precedes(&a) by {
        lemma_lex_le_total(a.name@, b.name@);
    }
    assert forall|a: Region, b: Region, c: Region|
        #[trigger] a.precedes(&b) && #[trigger] b.precedes(&c) implies #[trigger] a.precedes(&c) by {
        lemma_lex_le_trans(a.name@, b.name@, c.name@);
    }
}

/// Whether the collected names already hold this name.
fn contains_name_exec(names: &Vec<String>, name: &String) -> (r: bool)
    ensures
        r == contains_name(names@, name@),
{
    let n = names.len();
    let mut i: usize = 0;
    while i < n
        invariant
            n == names@.len(),
            i <= n,
            forall|j: int| 0 <= j < i ==> (#[trigger] names@[j])@ != name@,
        decreases n - i,
    {
        if names[i] == *name {
            return true;
        }
        i = i + 1;
    }
    false
}

/// The number of gifts of one name ordered for one region.
fn gift_region_total_exec(orders: &Vec<Order>, region_id: i32, name: &String) -> (t: i64)
    requires
        orders@.len() <= 0x7fff_ffff,
    ensures
        t == gift_region_total(orders@, region_id, name@),
{
    let n = orders.len();
    let mut acc: i64 = 0;
    let mut i: usize = 0;
    while i < n
        invariant
            n == orders@.len(),
            n <= 0x7fff_ffff,
            i <= n,
            acc == gift_region_total(orders@.take(i as int), region_id, name@),
        decreases n - i,
    {
        proof {
            lemma_gift_region_total_bound(orders@.take(i as int), region_id, name@);
        }
        if orders[i].region_id == region_id && orders[i].gift_name == *name {
            acc = acc + orders[i].quantity as i64;
        }
        proof {
            assert(orders@.take(i + 1).drop_last() =~= orders@.take(i as int));
            assert(orders@.take(i + 1).last() == orders@[i as int]);
        }
        i = i + 1;
    }
    proof {
        assert(orders@.take(n as int) =~= orders@);
    }
    acc
}

/// The gifts of one region ranked best first.
fn ranked_gifts(orders: &Vec<Order>, region_id: i32) -> (r: Vec<GiftRank>)
    requires
        orders@.len() <= 0x7fff_ffff,
    ensures
        r@ == ordered_by_insertion(
            gift_ranks(orders@, region_id, region_gifts(orders@, region_id)),
        ),
{
    let n = orders.len();
    let mut seen: Vec<String> = Vec::new();
    let mut ranked: Vec<GiftRank> = Vec::new();
    proof {
        assert(region_gifts(orders@.take(0), region_id) =~= Seq::<String>::empty());
        assert(seen@ =~= region_gifts(orders@.take(0), region_id));
        assert(gift_ranks(orders@, region_id, seen@) =~= Seq::<GiftRank>::empty());
        assert(ranked@ =~= ordered_by_insertion(gift_ranks(orders@, region_id, seen@)));
    }
    let mut k: usize = 0;
    while k < n
        invariant
            n == orders@.len(),
            n <= 0x7fff_ffff,
            k <= n,
            seen@ == region_gifts(orders@.take(k as int), region_id),
            ranked@ == ordered_by_insertion(gift_ranks(orders@, region_id, seen@)),
        decreases n - k,
    {
        proof {
            assert(orders@.take(k + 1).drop_last() =~= orders@.take(k as int));
            assert(orders@.take(k + 1).last() == orders@[k as int]);
        }
        if orders[k].region_id == region_id {
            let already = contains_name_exec(&seen, &orders[k].gift_name);
            if !already {
                let ghost seen0 = seen@;
                let name = orders[k].gift_name.clone();
                let total = gift_region_total_exec(orders, region_id, &name);
                let rank = GiftRank { gift: name.clone(), total };
                seen.push(name);
                proof {
                    assert(seen@ =~= region_gifts(orders@.take(k + 1), region_id));
                    assert(rank =~= (GiftRank {
                        gift: orders@[k as int].gift_name,
                        total: gift_region_total(
                            orders@,
                            region_id,
                            orders@[k as int].gift_name@,
                        ) as i64,
                    }));
                    assert(gift_ranks(orders@, region_id, seen@) =~= gift_ranks(
                        orders@,
                        region_id,
                        seen0,
                    ).push(rank));
                    assert(gift_ranks(orders@, region_id, seen@).drop_last() =~= gift_ranks(
                        orders@,
                        region_id,
                        seen0,
                    ));
                    assert(ordered_by_insertion(gift_ranks(orders@, region_id, seen@))
                        == insert_ordered(
                        rank,
                        ordered_by_insertion(gift_ranks(orders@, region_id, seen0)),
                    ));
                }
                insert_into(&mut ranked, rank);
            } else {
                proof {
                    assert(region_gifts(orders@.take(k + 1), region_id) =~= seen@);
                }
            }
        } else {
            proof {
                assert(region_gifts(orders@.take(k + 1), region_id) =~= seen@);
            }
        }
        k = k + 1;
    }
    proof {
        assert(orders@.take(n as int) =~= orders@);
    }
    ranked
}

/// The names of a region's best gifts, at most `count` of them, best
/// first.
pub open spec fn top_list(orders: Seq<Order>, region_id: i32, count: int) -> Seq<String> {
    let ranked = ordered_by_insertion(
        gift_ranks(orders, region_id, region_gifts(orders, region_id)),
    );
    ranked.take(
        if count < 0 {
            0
        } else if count > ranked.len() {
            ranked.len() as int
        } else {
            count
        },
    ).map_values(|p: GiftRank| p.gift)
}

/// The top-gifts report: one row per region, ordered by region name.
/// Each row carries the region's name and its most ordered gifts, at
/// most `count` of them, the most ordered first and equally ordered
/// gifts by name.
pub fn top_gifts_report(regions: &Vec<Region>, orders: &Vec<Order>, count: i64) -> (r: Vec<
    TopResponse,
>)
    requires
        orders@.len() <= 0x7fff_ffff,
    ensures
        r@.len() == regions@.len(),
        forall|i: int|
            0 <= i < r@.len() ==> {
                let sorted = ordered_by_insertion(regions@);
                &&& (#[trigger] r@[i]).region == Some(sorted[i].name)
                &&& match r@[i].top_gifts {
                    Some(v) => v@ == top_list(orders@, sorted[i].id, count as int),
                    None => false,
                }
            },
{
    let n = regions.len();
    let mut sorted: Vec<Region> = Vec::new();
    proof {
        assert(ordered_by_insertion(regions@.take(0)) =~= Seq::<Region>::empty());
        assert(sorted@ =~= ordered_by_insertion(regions@.take(0)));
    }
    let mut i: usize = 0;
    while i < n
        invariant
            n == regions@.len(),
            i <= n,
            sorted@ == ordered_by_insertion(regions@.take(i as int)),
        decreases n - i,
    {
        let fresh = Region { id: regions[i].id, name: regions[i].name.clone() };
        proof {
            assert(fresh =~= regions@[i as int]);
            assert(regions@.take(i + 1).drop_last() =~= regions@.take(i as int));
            assert(regions@.take(i + 1).last() == regions@[i as int]);
            assert(ordered_by_insertion(regions@.take(i + 1)) == insert_ordered(
                fresh,
                ordered_by_insertion(regions@.take(i as int)),
            ));
        }
        insert_into(&mut sorted, fresh);
        i = i + 1;
    }
    proof {
        assert(regions@.take(n as int) =~= regions@);
        lemma_ordered_by_insertion_len(regions@);
    }

    let m = sorted.len();
    let mut out: Vec<TopResponse> = Vec::new();
    let mut idx: usize = 0;
    while idx < m
        invariant
            m == sorted@.len(),
            sorted@ == ordered_by_insertion(regions@),
            orders@.len() <= 0x7fff_ffff,
            idx <= m,
            out@.len() == idx,
            forall|i: int|
                0 <= i < idx ==> {
                    &&& (#[trigger] out@[i]).region == Some(sorted@[i].name)
                    &&& match out@[i].top_gifts {
                        Some(v) => v@ == top_list(orders@, sorted@[i].id, count as int),
                        None => false,
                    }
                },
        decreases m - idx,
    {
        let ranked = ranked_gifts(orders, sorted[idx].id);
        let rn = ranked.len();
        proof {
            lemma_region_gifts_len(orders@, sorted@[idx as int].id);
            crate::sorting::lemma_ordered_by_insertion_len(
                gift_ranks(orders@, sorted@[idx as int].id, region_gifts(
                    orders@,
                    sorted@[idx as int].id,
                )),
            );
            assert(rn <= 0x7fff_ffff);
        }
        let limit: usize = if count < 0 {
            0
        } else if count >= rn as i64 {
            rn
        } else {
            count as usize
        };
        let mut gifts: Vec<String> = Vec::new();
        proof {
            assert(gifts@ =~= ranked@.take(0).map_values(|p: GiftRank| p.gift));
        }
        let mut g: usize = 0;
        while g < limit
            invariant
                rn == ranked@.len(),
                limit <= rn,
                g <= limit,
                gifts@ == ranked@.take(g as int).map_values(|p: GiftRank| p.gift),
            decreases limit - g,
        {
            gifts.push(ranked[g].gift.clone());
            proof {
                assert(gifts@ =~= ranked@.take(g + 1).map_values(|p: GiftRank| p.gift));
            }
            g = g + 1;
        }
        proof {
            let spec_list = top_list(orders@, sorted@[idx as int].id, count as int);
            assert(gifts@ =~= spec_list) by {
                assert(spec_list.len() == limit);
                assert forall|t: int| 0 <= t < limit implies gifts@[t] == spec_list[t] by {
                    assert(gifts@[t] == ranked@.take(limit as int)[t].gift);
                    assert(spec_list[t] == ranked@.take(spec_list.len() as int)[t].gift);
                }
            }
        }
        out.push(
            TopResponse { region: Some(sorted[idx].name.clone()), top_gifts: Some(gifts) },
        );
        idx = idx + 1;
    }
    out
}

} // verus!
