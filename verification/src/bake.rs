use vstd::prelude::*;

verus! {

/// A named amount: one line of a recipe or of a pantry.
#[verifier::ext_equal]
pub struct Ingredient {
    pub name: String,
    pub amount: u64,
}

/// The amount stored under a name, if the name is listed.
pub open spec fn lookup(list: Seq<Ingredient>, name: Seq<char>) -> Option<u64>
    decreases list.len(),
{
    if list.len() == 0 {
        None
    } else if list[0].name@ == name {
        Some(list[0].amount)
    } else {
        lookup(list.skip(1), name)
    }
}

/// No name is listed twice: the list stands for a mapping.
pub open spec fn distinct_names(list: Seq<Ingredient>) -> bool {
    forall|i: int, j: int|
        0 <= i < j < list.len() ==> (#[trigger] list[i]).name@ != (#[trigger] list[j]).name@
}

/// How many batches one required ingredient allows: the stock divided by
/// the required amount, with missing stock allowing none.
pub open spec fn item_limit(pantry: Seq<Ingredient>, ing: Ingredient) -> u64 {
    match lookup(pantry, ing.name@) {
        Some(p) => (p / ing.amount) as u64,
        None => 0u64,
    }
}

/// The tightest batch limit over the required ingredients, or `None` when
/// the recipe requires nothing.  Ingredients required in amount zero do
/// not constrain the count.
pub open spec fn min_limit(recipe: Seq<Ingredient>, pantry: Seq<Ingredient>) -> Option<u64>
    decreases recipe.len(),
{
    if recipe.len() == 0 {
        None
    } else {
        let rest = min_limit(recipe.drop_last(), pantry);
        if recipe.last().amount == 0 {
            rest
        } else {
            let l = item_limit(pantry, recipe.last());
            match rest {
                None => Some(l),
                Some(m) => Some(if l < m {
                    l
                } else {
                    m
                }),
            }
        }
    }
}

/// How many cookies the pantry allows: the tightest limit, or zero when
/// nothing constrains it.
pub open spec fn cookie_count(recipe: Seq<Ingredient>, pantry: Seq<Ingredient>) -> u64 {
    match min_limit(recipe, pantry) {
        Some(m) => m,
        None => 0u64,
    }
}

/// What is left of one pantry line after baking: the recipe's share of it
/// is consumed once per cookie.
pub open spec fn remaining_amount(recipe: Seq<Ingredient>, pantry: Seq<Ingredient>, p: Ingredient) -> int {
    match lookup(recipe, p.name@) {
        Some(r) => p.amount - r * cookie_count(recipe, pantry),
        None => p.amount as int,
    }
}

/// The baked count never exceeds the limit of any required ingredient.
proof fn lemma_cookie_count_le_item(recipe: Seq<Ingredient>, pantry: Seq<Ingredient>, i: int)
    requires
        0 <= i < recipe.len(),
        recipe[i].amount > 0,
    ensures
        min_limit(recipe, pantry) is Some,
        cookie_count(recipe, pantry) <= item_limit(pantry, recipe[i]),
    decreases recipe.len(),
{
    if i == recipe.len() - 1 {
        assert(recipe.last() == recipe[i]);
    } else {
        assert(recipe.drop_last()[i] == recipe[i]);
        lemma_cookie_count_le_item(recipe.drop_last(), pantry, i);
    }
}

/// In a mapping, the listed amount of a line's own name is that line's
/// amount.
proof fn lemma_lookup_self(list: Seq<Ingredient>, i: int)
    requires
        distinct_names(list),
        0 <= i < list.len(),
    ensures
        lookup(list, list[i].name@) == Some(list[i].amount),
    decreases list.len(),
{
    if list.len() > 0 {
        if i == 0 {
        } else {
            assert(list[0].name@ != list[i].name@);
            assert(distinct_names(list.skip(1))) by {
                assert forall|a: int, b: int|
                    0 <= a < b < list.skip(1).len() implies (#[trigger] list.skip(1)[a]).name@
                    != (#[trigger] list.skip(1)[b]).name@ by {
                    assert(list.skip(1)[a] == list[a + 1]);
                    assert(list.skip(1)[b] == list[b + 1]);
                }
            }
            assert(list.skip(1)[i - 1] == list[i]);
            lemma_lookup_self(list.skip(1), i - 1);
        }
    }
}

/// A listed name belongs to some line.
proof fn lemma_lookup_some(list: Seq<Ingredient>, name: Seq<char>)
    requires
        lookup(list, name) is Some,
    ensures
        exists|i: int|
            0 <= i < list.len() && (#[trigger] list[i]).name@ == name && lookup(list, name)
                == Some(list[i].amount),
    decreases list.len(),
{
    if list.len() > 0 {
        if list[0].name@ == name {
            assert(list[0].name@ == name && lookup(list, name) == Some(list[0].amount));
        } else {
            lemma_lookup_some(list.skip(1), name);
            let i = choose|i: int|
                0 <= i < list.skip(1).len() && (#[trigger] list.skip(1)[i]).name@ == name
                    && lookup(list.skip(1), name) == Some(list.skip(1)[i].amount);
            assert(list[i + 1].name@ == name && lookup(list, name) == Some(list[i + 1].amount));
        }
    }
}

/// The amount stored under a name, if the name is listed.
fn lookup_exec(list: &Vec<Ingredient>, name: &String) -> (r: Option<u64>)
    ensures
        r == lookup(list@, name@),
{
    let n = list.len();
    let mut i: usize = 0;
    proof {
        assert(list@.skip(0) =~= list@);
    }
    while i < n
        invariant
            n == list@.len(),
            i <= n,
            lookup(list@, name@) == lookup(list@.skip(i as int), name@),
        decreases n - i,
    {
        proof {
            assert(list@.skip(i as int)[0] == list@[i as int]);
            assert(list@.skip(i as int).skip(1) =~= list@.skip(i + 1));
        }
        if list[i].name == *name {
            return Some(list[i].amount);
        }
        i = i + 1;
    }
    None
}

/// Bake as many cookies as the pantry allows: the count, and what is
/// left in the pantry, line by line.
pub fn bake(recipe: &Vec<Ingredient>, pantry: &Vec<Ingredient>) -> (r: (u64, Vec<Ingredient>))
    requires
        distinct_names(recipe@),
        distinct_names(pantry@),
    ensures
        r.0 == cookie_count(recipe@, pantry@),
        r.1@.len() == pantry@.len(),
        forall|i: int|
            0 <= i < pantry@.len() ==> (#[trigger] r.1@[i]).name == pantry@[i].name
                && r.1@[i].amount == remaining_amount(recipe@, pantry@, pantry@[i]),
{
    let rn = recipe.len();
    let mut limit: Option<u64> = None;
    let mut k: usize = 0;
    while k < rn
        invariant
            rn == recipe@.len(),
            k <= rn,
            limit == min_limit(recipe@.take(k as int), pantry@),
        decreases rn - k,
    {
        proof {
            assert(recipe@.take(k + 1).drop_last() =~= recipe@.take(k as int));
            assert(recipe@.take(k + 1).last() == recipe@[k as int]);
        }
        if recipe[k].amount > 0 {
            let stock = lookup_exec(pantry, &recipe[k].name);
            let l = match stock {
                Some(p) => p / recipe[k].amount,
                None => 0,
            };
            proof {
                assert(l == item_limit(pantry@, recipe@[k as int]));
            }
            limit = match limit {
                None => Some(l),
                Some(m) => Some(if l < m {
                    l
                } else {
                    m
                }),
            };
        }
        k = k + 1;
    }
    proof {
        assert(recipe@.take(rn as int) =~= recipe@);
    }
    let cookies = match limit {
        Some(m) => m,
        None => 0,
    };

    let pn = pantry.len();
    let mut left: Vec<Ingredient> = Vec::new();
    let mut j: usize = 0;
    while j < pn
        invariant
            pn == pantry@.len(),
            distinct_names(recipe@),
            distinct_names(pantry@),
            j <= pn,
            cookies == cookie_count(recipe@, pantry@),
            left@.len() == j,
            forall|i: int|
                0 <= i < j ==> (#[trigger] left@[i]).name == pantry@[i].name && left@[i].amount
                    == remaining_amount(recipe@, pantry@, pantry@[i]),
        decreases pn - j,
    {
        let stock = pantry[j].amount;
        let needed = lookup_exec(recipe, &pantry[j].name);
        let new_amount: u64 = match needed {
            Some(r) => {
                if r == 0 || cookies == 0 {
                    proof {
                        assert(r * cookie_count(recipe@, pantry@) == 0) by (nonlinear_arith)
                            requires
                                r == 0 || cookie_count(recipe@, pantry@) == 0,
                        ;
                    }
                    stock
                } else {
                    proof {
                        lemma_lookup_some(recipe@, pantry@[j as int].name@);
                        let i = choose|i: int|
                            0 <= i < recipe@.len() && (#[trigger] recipe@[i]).name@
                                == pantry@[j as int].name@ && lookup(
                                recipe@,
                                pantry@[j as int].name@,
                            ) == Some(recipe@[i].amount);
                        lemma_cookie_count_le_item(recipe@, pantry@, i);
                        lemma_lookup_self(pantry@, j as int);
                        assert(item_limit(pantry@, recipe@[i]) == pantry@[j as int].amount / r);
                        assert(r * cookie_count(recipe@, pantry@) <= pantry@[j as int].amount) by (
                        nonlinear_arith)
                            requires
                                r > 0,
                                cookie_count(recipe@, pantry@) <= pantry@[j as int].amount as int
                                    / r as int,
                        ;
                    }
                    stock - r * cookies
                }
            },
            None => stock,
        };
        left.push(Ingredient { name: pantry[j].name.clone(), amount: new_amount });
        j = j + 1;
    }
    (cookies, left)
}

} // verus!
