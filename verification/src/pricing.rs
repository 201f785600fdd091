//! The pricing model: what a craft costs, what it is worth and what it earns.

use vstd::prelude::*;
use crate::amount::{clamp, div_toward_zero, saturate, wide_product, Amount, SCALE};
use crate::decimal::{amount_from_chars, text_micros};
use crate::model::{
    element_of, Crystals, CrystalsView, Element, Item, ItemView, Recipe, RecipeView, Side,
};
use crate::text::{chars_of, find_from, scan, slice_of};

verus! {

/// The price of `item` on `side`: the auction-house price if that is the
/// chosen one, else the vendor's. A chosen price that is not known gives
/// none.
pub fn resolve_price(item: &Item, side: Side) -> (price: Option<Amount>)
    ensures
        price == item@.price_on(side),
{
    match side {
        Side::Buy => item.buy.resolve(),
        Side::Sell => item.sell.resolve(),
    }
}

/// The price of an item depends on nothing but the item and the side.
pub proof fn resolve_price_is_pure(a: Item, b: Item, side: Side)
    requires
        a@ == b@,
    ensures
        a@.price_on(side) == b@.price_on(side),
{
}

/// The element tag of a crystal: its name up to the first underscore.
pub open spec fn tag_of(name: Seq<char>) -> Seq<char> {
    name.take(scan(name, '_', 0))
}

/// The share of one craft in a stack of twelve crystals priced by `text`.
/// Text that is no number counts as zero.
pub open spec fn crystal_share(text: Seq<char>) -> int {
    match text_micros(text) {
        Some(p) => div_toward_zero(p, 12),
        None => 0,
    }
}

/// What the crystal named `name` adds to the cost of one craft. A crystal of
/// no known element adds nothing.
pub open spec fn crystal_cost_of(name: Seq<char>, crystals: CrystalsView) -> int {
    match element_of(tag_of(name)) {
        Some(e) => crystal_share(crystals.entry(e)),
        None => 0,
    }
}

/// The cost of a crystal is not negative as long as the entry for its
/// element is no negative number.
pub proof fn crystal_cost_is_not_negative(name: Seq<char>, crystals: CrystalsView)
    requires
        element_of(tag_of(name)) matches Some(e) ==> (text_micros(crystals.entry(e)) matches Some(
            p,
        ) ==> p >= 0),
    ensures
        crystal_cost_of(name, crystals) >= 0,
{
    match element_of(tag_of(name)) {
        Some(e) => {
            let text = crystals.entry(e);
            match text_micros(text) {
                Some(p) => {
                    assert(p >= 0);
                    assert(p / 12 >= 0);
                },
                None => {},
            }
        },
        None => {},
    }
}

/// Whether every item has a price for consuming it.
pub open spec fn all_priced(items: Seq<ItemView>) -> bool {
    forall|k: int| 0 <= k < items.len() ==> (#[trigger] items[k]).buy.resolved() is Some
}

/// Price times quantity of one ingredient line, exactly. Zero for an item
/// without a price.
pub open spec fn line_product(item: ItemView) -> int {
    match item.buy.resolved() {
        Some(p) => p.micros * item.quantity,
        None => 0,
    }
}

/// The exact sum of price times quantity over the items.
pub open spec fn ingredients_sum(items: Seq<ItemView>) -> int
    decreases items.len(),
{
    if items.len() == 0 {
        0
    } else {
        ingredients_sum(items.drop_last()) + line_product(items.last())
    }
}

/// The sum over two runs of items is the sum of their sums.
pub proof fn lemma_sum_of_runs(a: Seq<ItemView>, b: Seq<ItemView>)
    ensures
        ingredients_sum(a + b) == ingredients_sum(a) + ingredients_sum(b),
    decreases b.len(),
{
    if b.len() == 0 {
        assert(a + b =~= a);
    } else {
        lemma_sum_of_runs(a, b.drop_last());
        assert((a + b).drop_last() =~= a + b.drop_last());
        assert((a + b).last() == b.last());
    }
}

/// The order of the ingredients does not matter to the sum: two ingredients
/// that change places leave it as it was.
pub proof fn sum_ignores_order(items: Seq<ItemView>, i: int, j: int)
    requires
        0 <= i < j < items.len(),
    ensures
        ingredients_sum(items.update(i, items[j]).update(j, items[i])) == ingredients_sum(items),
{
    let a = items.take(i);
    let b = items.subrange(i + 1, j);
    let c = items.skip(j + 1);
    let x = seq![items[i]];
    let y = seq![items[j]];
    let swapped = items.update(i, items[j]).update(j, items[i]);
    assert(items =~= a + x + b + y + c);
    assert(swapped =~= a + y + b + x + c);
    lemma_sum_of_runs(a + x + b + y, c);
    lemma_sum_of_runs(a + x + b, y);
    lemma_sum_of_runs(a + x, b);
    lemma_sum_of_runs(a, x);
    lemma_sum_of_runs(a + y + b + x, c);
    lemma_sum_of_runs(a + y + b, x);
    lemma_sum_of_runs(a + y, b);
    lemma_sum_of_runs(a, y);
}

/// The cost of one craft: the sum of price times quantity over the
/// ingredients and the crystal's share, brought into the range of an
/// amount. None as soon as one ingredient has no price.
pub open spec fn produce_cost_of(items: Seq<ItemView>, crystal_cost: int) -> Option<Amount> {
    if all_priced(items) {
        Some(Amount { micros: clamp(ingredients_sum(items) + crystal_cost) as i64 })
    } else {
        None
    }
}

/// Whether `x` can be held by an amount.
pub open spec fn fits(x: int) -> bool {
    i64::MIN <= x <= i64::MAX
}

/// When every ingredient has a price, the cost of a craft is the sum of
/// price times quantity over the ingredients plus the crystal's share, as
/// long as an amount can hold that sum. When an ingredient has no price,
/// there is no cost.
pub proof fn produce_cost_is_sum(items: Seq<ItemView>, crystal_cost: int)
    requires
        fits(ingredients_sum(items) + crystal_cost),
    ensures
        all_priced(items) ==> produce_cost_of(items, crystal_cost) == Some(
            Amount { micros: (ingredients_sum(items) + crystal_cost) as i64 },
        ),
        !all_priced(items) ==> produce_cost_of(items, crystal_cost) is None,
{
}

/// The order of the ingredients does not matter to the cost: two
/// ingredients that change places leave it as it was.
pub proof fn cost_ignores_order(items: Seq<ItemView>, i: int, j: int, crystal_cost: int)
    requires
        0 <= i < j < items.len(),
    ensures
        produce_cost_of(items.update(i, items[j]).update(j, items[i]), crystal_cost)
            == produce_cost_of(items, crystal_cost),
{
    let swapped = items.update(i, items[j]).update(j, items[i]);
    sum_ignores_order(items, i, j);
    if all_priced(items) {
        assert forall|k: int| 0 <= k < swapped.len() implies (
        #[trigger] swapped[k]).buy.resolved() is Some by {
            if k == i {
                assert(swapped[k] == items[j]);
            } else if k == j {
                assert(swapped[k] == items[i]);
            } else {
                assert(swapped[k] == items[k]);
            }
        }
    }
    if all_priced(swapped) {
        assert forall|k: int| 0 <= k < items.len() implies (
        #[trigger] items[k]).buy.resolved() is Some by {
            if k == i {
                assert(swapped[j] == items[i]);
            } else if k == j {
                assert(swapped[i] == items[j]);
            } else {
                assert(swapped[k] == items[k]);
            }
        }
    }
}

/// The part of a running sum that is counted in whole: the sum is held as
/// a number of these and a remainder that is smaller.
const LIMB: i128 = 0x1_0000_0000_0000_0000_0000_0000;

impl Recipe {
    /// Recalculates the cached cost of one craft from the ingredients'
    /// prices and the given share of the crystal, and changes nothing else.
    pub fn calculate_produce_cost(&mut self, crystal_cost: Amount)
        ensures
            final(self).produce_cost == produce_cost_of(
                old(self)@.ingredients,
                crystal_cost.micros as int,
            ),
            *final(self) == (Recipe { produce_cost: final(self).produce_cost, ..*old(self) }),
            old(self)@.wf() ==> final(self)@.wf(),
    {
        let mut wholes: i128 = 0;
        let mut rest: i128 = 0;
        let mut i: usize = 0;
        let ghost items = self@.ingredients;
        assert(items.take(0) =~= Seq::<ItemView>::empty());
        while i < self.ingredients.len()
            invariant
                i <= self.ingredients.len(),
                *self == *old(self),
                items == self@.ingredients,
                all_priced(items.take(i as int)),
                ingredients_sum(items.take(i as int)) == wholes * LIMB + rest,
                -LIMB < rest < LIMB,
                -i <= wholes <= i,
            decreases self.ingredients.len() - i,
        {
            let item = &self.ingredients[i];
            assert(items[i as int] == item@);
            assert(items.take(i + 1).drop_last() =~= items.take(i as int));
            assert(items.take(i + 1).last() == items[i as int]);
            match item.buy.resolve() {
                Some(buy) => {
                    rest = rest + wide_product(buy.micros, item.quantity);
                    if rest >= LIMB {
                        rest = rest - LIMB;
                        wholes = wholes + 1;
                    } else if rest <= -LIMB {
                        rest = rest + LIMB;
                        wholes = wholes - 1;
                    }
                },
                None => {
                    self.produce_cost = None;
                    return ;
                },
            }
            assert(all_priced(items.take(i + 1))) by {
                assert forall|k: int| 0 <= k < i + 1 implies (#[trigger] items.take(
                    i + 1,
                )[k]).buy.resolved() is Some by {
                    if k < i {
                        assert(items.take(i as int)[k] == items[k]);
                    }
                }
            }
            i += 1;
        }
        assert(items.take(i as int) =~= items);
        let cost = if wholes >= 2 {
            Amount { micros: i64::MAX }
        } else if wholes <= -2 {
            Amount { micros: i64::MIN }
        } else {
            saturate(wholes * LIMB + rest + crystal_cost.micros as i128)
        };
        self.produce_cost = Some(cost);
    }

    /// What one craft yields: the price of the produced item, zero if it has
    /// none, times the output size.
    pub fn get_value(&self) -> (value: Amount)
        ensures
            value.micros == value_of(self@),
    {
        let price = match self.item.sell.resolve() {
            Some(p) => p,
            None => Amount::zero(),
        };
        price.times(self.output_size)
    }

    /// What the crystal adds to the cost of one craft at the prices in
    /// `crystals`: a twelfth of the price of a stack of its element.
    pub fn get_crystal_cost(&self, crystals: &Crystals) -> (cost: Amount)
        ensures
            cost.micros == crystal_cost_of(self.crystal.name@, crystals@),
    {
        let name = chars_of(self.crystal.name.as_str());
        let end = find_from(&name, '_', 0);
        let tag = slice_of(&name, 0, end);
        match Element::from_tag(&tag) {
            Some(e) => {
                let text = chars_of(crystals.entry(e).as_str());
                match amount_from_chars(&text) {
                    Some(price) => price.shared_among(12),
                    None => Amount::zero(),
                }
            },
            None => Amount::zero(),
        }
    }

    /// What one craft earns.
    pub fn profit_single(&self) -> (profit: Amount)
        ensures
            profit.micros == profit_single_of(self@),
    {
        let cost = match self.produce_cost {
            Some(c) => c,
            None => Amount::zero(),
        };
        self.get_value().minus(cost)
    }

    /// What the crafts that fill one stack of the produced item earn. Zero
    /// for a recipe that yields nothing.
    pub fn profit_stack(&self) -> (profit: Amount)
        ensures
            profit.micros == profit_stack_of(self@),
    {
        if self.output_size.micros > 0 {
            self.profit_single().times_ratio(self.item.stack_size, self.output_size)
        } else {
            Amount::zero()
        }
    }
}

/// The price of the produced item, zero if it has none, times the output
/// size.
pub open spec fn value_of(r: RecipeView) -> int {
    let price = match r.item.sell.resolved() {
        Some(p) => p.micros as int,
        None => 0,
    };
    clamp(div_toward_zero(price * r.output_size.micros, SCALE as int))
}

/// The value of one craft less its cost; a recipe without a cost counts as
/// costing nothing.
pub open spec fn profit_single_of(r: RecipeView) -> int {
    let cost = match r.produce_cost {
        Some(c) => c.micros as int,
        None => 0,
    };
    clamp(value_of(r) - cost)
}

/// The profit of one craft times the number of crafts that fill a stack.
pub open spec fn profit_stack_of(r: RecipeView) -> int {
    if r.output_size.micros > 0 {
        clamp(
            div_toward_zero(
                profit_single_of(r) * r.item.stack_size.micros,
                r.output_size.micros as int,
            ),
        )
    } else {
        0
    }
}

} // verus!
