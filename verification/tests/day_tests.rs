use std::collections::{HashMap, HashSet};

use shuttlings_cch23::bake::{bake, Ingredient};
use shuttlings_cch23::contest::strength_sum;
use shuttlings_cch23::cube::cube_the_bits;
use shuttlings_cch23::elves::elf_count;
use shuttlings_cch23::error::Error;
use shuttlings_cch23::html::Content;
use shuttlings_cch23::orders::{popular_gift, total_quantity, Order};
use shuttlings_cch23::pagination::{chunk_pages, Pagination};
use shuttlings_cch23::pixels::count_red_pixels;
use shuttlings_cch23::portals::{gift_string, parse_u64, travel, xor_presents};
use shuttlings_cch23::regions::{region_totals, top_gifts_report, Region};

#[test]
fn day_one_test_both_tasks() {
    for (input, expected) in [("4/8", "1728"), ("10", "1000"), ("4/5/8/10", "27")] {
        assert_eq!(cube_the_bits(input).to_string(), expected);
    }
}

#[test]
fn day_six_test_both_tasks() {
    let cases = [
        (
            "The mischievous elf peeked out from behind the toy workshop,
         and another elf joined in the festive dance.
         Look, there is also an elf on that shelf!",
            (4, 0, 1),
        ),
        (
            "there is an elf on a shelf on an elf.
         there is also another shelf in Belfast.",
            (5, 1, 1),
        ),
    ];
    for (input, (elf, elf_shelfs, no_elf_shelfs)) in cases {
        let count = elf_count(input);
        assert_eq!(count.elf, elf);
        assert_eq!(count.elf_shelfs, elf_shelfs);
        assert_eq!(count.no_elf_shelfs, no_elf_shelfs);
    }
}

#[test]
fn lowercasing_reaches_the_counts() {
    let count = elf_count("ELF ON A SHELF");
    assert_eq!(count.elf, 2);
    assert_eq!(count.elf_shelfs, 1);
    assert_eq!(count.no_elf_shelfs, 0);
}

#[test]
fn cube_the_bits_ignores_bad_pieces() {
    assert_eq!(cube_the_bits(""), 0);
    assert_eq!(cube_the_bits("abc/8"), 512);
    assert_eq!(cube_the_bits("-3"), -27);
    assert_eq!(cube_the_bits("99999999999999999999/2"), 8);
}

#[test]
fn pagination_slices_the_names() {
    let names: Vec<String> = ["Ava", "Caleb", "Mia", "Owen", "Lily", "Ethan"]
        .iter()
        .map(|s| s.to_string())
        .collect();

    let page = Pagination { offset: Some(3), limit: Some(5), split: None }.paginate(&names);
    assert_eq!(page, vec!["Owen".to_string(), "Lily".to_string(), "Ethan".to_string()]);

    let all = Pagination { offset: None, limit: None, split: None }.paginate(&names);
    assert_eq!(all.len(), 6);

    let out_of_range = Pagination { offset: Some(10), limit: None, split: None }.paginate(&names);
    assert!(out_of_range.is_empty());
}

#[test]
fn pagination_splits_into_chunks() {
    let names: Vec<String> =
        ["Ava", "Caleb", "Mia", "Owen", "Lily"].iter().map(|s| s.to_string()).collect();
    let chunks = chunk_pages(&names, 2);
    assert_eq!(chunks.len(), 3);
    assert_eq!(chunks[0], vec!["Ava".to_string(), "Caleb".to_string()]);
    assert_eq!(chunks[1], vec!["Mia".to_string(), "Owen".to_string()]);
    assert_eq!(chunks[2], vec!["Lily".to_string()]);
}

fn order(id: i32, region_id: i32, gift_name: &str, quantity: i32) -> Order {
    Order { id, region_id, gift_name: gift_name.to_string(), quantity }
}

#[test]
fn order_totals_add_up() {
    let orders = vec![
        order(1, 2, "Toy Train", 5),
        order(2, 2, "Doll", 8),
        order(3, 3, "Toy Train", 4),
    ];
    assert_eq!(total_quantity(&orders).total, 17);
    assert_eq!(total_quantity(&Vec::new()).total, 0);
}

#[test]
fn popular_gift_takes_the_largest_total() {
    let orders = vec![
        order(1, 2, "Toy Train", 5),
        order(2, 2, "Doll", 8),
        order(3, 3, "Toy Train", 4),
    ];
    assert_eq!(popular_gift(&orders).popular.as_deref(), Some("Toy Train"));
    assert!(popular_gift(&Vec::new()).popular.is_none());
}

#[test]
fn pages_are_rendered() {
    let unsafe_page = Content { content: "<h1>Welcome to the North Pole!</h1>".to_string() }
        .render_unescaped();
    assert_eq!(
        unsafe_page,
        "<html>\n  <head>\n    <title>CCH23 Day 14</title>\n  </head>\n  <body>\n    \
         <h1>Welcome to the North Pole!</h1>\n  </body>\n</html>"
    );

    let safe_page = Content {
        content: "<script>alert(\"XSS Attack!\")</script>".to_string(),
    }
        .render_escaped();
    assert_eq!(
        safe_page,
        "<html>\n  <head>\n    <title>CCH23 Day 14</title>\n  </head>\n  <body>\n    \
         &lt;script&gt;alert(&quot;XSS Attack!&quot;)&lt;/script&gt;\n  </body>\n</html>"
    );
}

#[test]
fn travel_follows_the_portals() {
    let mut portals: HashMap<usize, Vec<usize>> = HashMap::new();
    portals.insert(2, vec![1]);
    portals.insert(1, vec![0]);
    assert_eq!(travel(2, HashSet::new(), &portals), Some(vec![2, 1, 0]));

    assert_eq!(travel(0, HashSet::new(), &portals), Some(vec![0]));

    // A star with no outgoing portal is a dead end.
    assert_eq!(travel(5, HashSet::new(), &portals), None);

    // A cycle without an exit leads nowhere.
    let mut looped: HashMap<usize, Vec<usize>> = HashMap::new();
    looped.insert(3, vec![4]);
    looped.insert(4, vec![3]);
    assert_eq!(travel(3, HashSet::new(), &looped), None);

    // A branch where only one exit reaches star zero.
    let mut branched: HashMap<usize, Vec<usize>> = HashMap::new();
    branched.insert(3, vec![4, 1]);
    branched.insert(4, vec![3]);
    branched.insert(1, vec![0]);
    let path = travel(3, HashSet::new(), &branched).expect("a route exists");
    assert_eq!(path.first(), Some(&3));
    assert_eq!(path.last(), Some(&0));
}

#[test]
fn error_carries_its_message() {
    let e = Error::from_text("Challenge -1 Task 2");
    assert_eq!(e.message(), "Challenge -1 Task 2");
}

#[test]
fn region_totals_are_summed_and_ordered() {
    let regions = vec![
        Region { id: 2, name: "Norway".to_string() },
        Region { id: 3, name: "Iceland".to_string() },
        Region { id: 4, name: "Sweden".to_string() },
    ];
    let orders = vec![
        order(1, 2, "Toy Train", 5),
        order(2, 2, "Doll", 3),
        order(3, 3, "Sled", 7),
    ];
    let rows = region_totals(&regions, &orders);
    assert_eq!(rows.len(), 2);
    assert_eq!(rows[0].name.as_deref(), Some("Iceland"));
    assert_eq!(rows[0].total, Some(7));
    assert_eq!(rows[1].name.as_deref(), Some("Norway"));
    assert_eq!(rows[1].total, Some(8));
}

#[test]
fn top_gifts_are_ranked_per_region() {
    let regions = vec![
        Region { id: 2, name: "Oslo".to_string() },
        Region { id: 3, name: "Bergen".to_string() },
    ];
    let orders = vec![
        order(1, 2, "Doll", 5),
        order(2, 2, "Toy Train", 9),
        order(3, 2, "Sled", 9),
        order(4, 2, "Doll", 2),
        order(5, 4, "Kite", 3),
    ];
    let rows = top_gifts_report(&regions, &orders, 2);
    assert_eq!(rows.len(), 2);
    // Rows come ordered by region name; a region without orders gets an
    // empty list.
    assert_eq!(rows[0].region.as_deref(), Some("Bergen"));
    assert_eq!(rows[0].top_gifts.as_deref(), Some(&[][..]));
    // Equal totals are broken by gift name.
    assert_eq!(rows[1].region.as_deref(), Some("Oslo"));
    assert_eq!(
        rows[1].top_gifts.as_deref(),
        Some(&["Sled".to_string(), "Toy Train".to_string()][..])
    );
}

#[test]
fn top_gifts_count_is_clipped() {
    let regions = vec![Region { id: 2, name: "Oslo".to_string() }];
    let orders = vec![order(1, 2, "Doll", 5)];
    let rows = top_gifts_report(&regions, &orders, 10);
    assert_eq!(rows[0].top_gifts.as_deref(), Some(&["Doll".to_string()][..]));
    let rows = top_gifts_report(&regions, &orders, -1);
    assert_eq!(rows[0].top_gifts.as_deref(), Some(&[][..]));
}

fn ingredient(name: &str, amount: u64) -> Ingredient {
    Ingredient { name: name.to_string(), amount }
}

#[test]
fn baking_uses_the_tightest_ingredient()  {
    let recipe = vec![ingredient("flour", 3), ingredient("sugar", 2)];
    let pantry = vec![ingredient("flour", 10), ingredient("sugar", 7)];
    let (cookies, left) = bake(&recipe, &pantry);
    assert_eq!(cookies, 3);
    assert_eq!(left.len(), 2);
    assert_eq!(left[0].name, "flour");
    assert_eq!(left[0].amount, 1);
    assert_eq!(left[1].name, "sugar");
    assert_eq!(left[1].amount, 1);
}

#[test]
fn baking_without_stock_bakes_nothing() {
    let recipe = vec![ingredient("flour", 3), ingredient("chocolate chips", 2)];
    let pantry = vec![ingredient("flour", 100)];
    let (cookies, left) = bake(&recipe, &pantry);
    assert_eq!(cookies, 0);
    assert_eq!(left[0].amount, 100);
}

#[test]
fn zero_amount_ingredients_do_not_constrain() {
    let recipe = vec![ingredient("flour", 0), ingredient("sugar", 2)];
    let pantry = vec![ingredient("flour", 1), ingredient("sugar", 8)];
    let (cookies, left) = bake(&recipe, &pantry);
    assert_eq!(cookies, 4);
    assert_eq!(left[0].amount, 1);
    assert_eq!(left[1].amount, 0);
}

#[test]
fn red_pixels_are_counted() {
    let pixels = vec![
        (200u16, 50u16, 100u16),
        (100, 100, 0),
        (0, 200, 10),
        (65535, 0, 65534),
    ];
    assert_eq!(count_red_pixels(&pixels), 2);
}

#[test]
fn strength_sums_the_team() {
    assert_eq!(strength_sum(&vec![4, 5, 6]), 15);
    assert_eq!(strength_sum(&vec![-3, 2]), -1);
    assert_eq!(strength_sum(&Vec::new()), 0);
}

#[test]
fn presents_follow_the_lone_number() {
    let lines: Vec<String> =
        ["888", "77", "888", "22", "77"].iter().map(|s| s.to_string()).collect();
    assert_eq!(xor_presents(&lines), 22);
    assert_eq!(gift_string(3), "\u{1f381}\u{1f381}\u{1f381}");
    assert_eq!(gift_string(0), "");
    // Unreadable lines count zero.
    let noisy: Vec<String> = ["12", "not a number", "12"].iter().map(|s| s.to_string()).collect();
    assert_eq!(xor_presents(&noisy), 0);
    assert_eq!(parse_u64("18446744073709551615"), Some(u64::MAX));
    assert_eq!(parse_u64("18446744073709551616"), None);
    assert_eq!(parse_u64("+7"), Some(7));
    assert_eq!(parse_u64("-7"), None);
}
