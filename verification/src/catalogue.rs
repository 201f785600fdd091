//! The catalogue: the recipes and the crystal prices that a frontend works
//! on, and the lines of the table that it shows.

use vstd::prelude::*;
use crate::amount::Amount;
use crate::codec::{
    catalogue_read, catalogue_wire, crystals_read, crystals_wire, decode_catalogue,
    decode_crystals, encode_catalogue, encode_crystals,
};
use crate::decimal::{int_chars, int_text, plain_text, rounded_text};
use crate::label::{label_chars, label_of};
use crate::model::{
    element_of, recipe_views, Crystals, CrystalsView, Element, Recipe, RecipeView,
};
use crate::pricing::{
    crystal_cost_of, produce_cost_of, profit_single_of, profit_stack_of, tag_of, value_of,
};
use crate::text::{chars_of, find_from, slice_of, string_of};

verus! {

/// The recipes in the order of the table, and the crystal prices in force.
#[derive(Clone, Debug, PartialEq, Eq)]
pub struct Catalogue {
    pub recipes: Vec<Recipe>,
    pub crystals: Crystals,
}

/// A recipe with its cost calculated anew at the given crystal prices.
pub open spec fn recalculated(recipe: Recipe, crystals: CrystalsView) -> Recipe {
    Recipe {
        produce_cost: produce_cost_of(
            recipe@.ingredients,
            crystal_cost_of(recipe.crystal.name@, crystals),
        ),
        ..recipe
    }
}

impl Catalogue {
    /// A catalogue of the given recipes with no crystal price entered.
    pub fn new(recipes: Vec<Recipe>) -> (c: Catalogue)
        ensures
            c.recipes == recipes,
            forall|e: Element| (#[trigger] c.crystals@.entry(e)).len() == 0,
    {
        Catalogue { recipes, crystals: Crystals::new() }
    }

    /// The recipes, in order.
    pub fn list_recipes(&self) -> (recipes: &Vec<Recipe>)
        ensures
            recipes == &self.recipes,
    {
        &self.recipes
    }

    /// Stores `text` as it is as the price of the crystals that `tag` names.
    /// A tag that names no element changes nothing. Returns whether the tag
    /// names an element.
    pub fn set_crystal(&mut self, tag: &str, text: &str) -> (known: bool)
        ensures
            known == element_of(tag@) is Some,
            final(self).recipes == old(self).recipes,
            final(self).crystals@ == match element_of(tag@) {
                Some(e) => old(self).crystals@.with_entry(e, text@),
                None => old(self).crystals@,
            },
    {
        let chars = chars_of(tag);
        match Element::from_tag(&chars) {
            Some(e) => {
                self.crystals.set_entry(e, text.to_owned());
                true
            },
            None => false,
        }
    }

    /// Opens the catalogue that was saved as `bytes`, with no crystal price
    /// entered. Bytes that hold no catalogue give none.
    pub fn open(bytes: &Vec<u8>) -> (r: Option<Catalogue>)
        ensures
            r is Some <==> catalogue_read(bytes@) is Some,
            r matches Some(c) ==> recipe_views(c.recipes@) == catalogue_read(bytes@)->0 && forall|
                e: Element,
            | (#[trigger] c.crystals@.entry(e)).len() == 0,
    {
        match decode_catalogue(bytes) {
            Some(recipes) => Some(Catalogue::new(recipes)),
            None => None,
        }
    }

    /// The bytes to save the recipes as, cached costs included.
    pub fn save_recipes(&self) -> (bytes: Vec<u8>)
        ensures
            bytes@ == catalogue_wire(recipe_views(self.recipes@)),
    {
        encode_catalogue(&self.recipes)
    }

    /// The bytes to save the crystal prices as.
    pub fn save_crystals(&self) -> (bytes: Vec<u8>)
        ensures
            bytes@ == crystals_wire(self.crystals@),
    {
        encode_crystals(&self.crystals)
    }

    /// Puts the crystal prices that were saved as `bytes` in the place of
    /// those in force. Bytes that hold no crystal prices change nothing.
    /// Returns whether the prices were replaced.
    pub fn load_crystals(&mut self, bytes: &Vec<u8>) -> (loaded: bool)
        ensures
            final(self).recipes == old(self).recipes,
            loaded == crystals_read(bytes@) is Some,
            loaded ==> final(self).crystals@ == crystals_read(bytes@)->0,
            !loaded ==> final(self).crystals == old(self).crystals,
    {
        match decode_crystals(bytes) {
            Some(crystals) => {
                self.crystals = crystals;
                true
            },
            None => false,
        }
    }

    /// Calculates the cost of every recipe anew at the crystal prices in
    /// force, and changes nothing else.
    pub fn recalculate(&mut self)
        ensures
            final(self).crystals == old(self).crystals,
            final(self).recipes.len() == old(self).recipes.len(),
            forall|k: int|
                0 <= k < old(self).recipes.len() ==> #[trigger] final(self).recipes[k]
                    == recalculated(old(self).recipes[k], old(self).crystals@),
            forall|k: int|
                0 <= k < old(self).recipes.len() && old(self).recipes[k]@.wf() ==> (
                #[trigger] final(self).recipes[k])@.wf(),
    {
        let mut k: usize = 0;
        while k < self.recipes.len()
            invariant
                k <= self.recipes.len(),
                self.crystals == old(self).crystals,
                self.recipes.len() == old(self).recipes.len(),
                forall|j: int|
                    0 <= j < k ==> #[trigger] self.recipes[j] == recalculated(
                        old(self).recipes[j],
                        old(self).crystals@,
                    ),
                forall|j: int|
                    k <= j < self.recipes.len() ==> #[trigger] self.recipes[j] == old(
                        self,
                    ).recipes[j],
            decreases self.recipes.len() - k,
        {
            let cost = self.recipes[k].get_crystal_cost(&self.crystals);
            self.recipes[k].calculate_produce_cost(cost);
            k += 1;
        }
    }
}

/// The texts of one line of the table.
#[derive(Clone, Debug, PartialEq, Eq)]
pub struct TableRow {
    /// The skill level.
    pub level: String,
    /// The label of the item produced.
    pub recipe: String,
    /// The label of the crystal's element.
    pub crystal: String,
    /// The cost of one craft.
    pub cost: String,
    /// The value of one craft.
    pub value: String,
    /// The profit of one craft and of a stack.
    pub profit: String,
}

/// The cost of a craft as the table shows it: to one digit after the point,
/// zero where there is no cost.
pub open spec fn cost_text(r: RecipeView) -> Seq<char> {
    match r.produce_cost {
        Some(c) => rounded_text(c.micros as int),
        None => rounded_text(0),
    }
}

/// The profit of a craft as the table shows it: the profit of one craft and
/// the output size, then the profit of a stack and the stack size.
pub open spec fn profit_text(r: RecipeView) -> Seq<char> {
    rounded_text(profit_single_of(r)) + " (x"@ + plain_text(r.output_size.micros as int) + ") / "@
        + rounded_text(profit_stack_of(r)) + " (x"@ + plain_text(r.item.stack_size.micros as int)
        + ")"@
}

fn push_text(out: &mut Vec<char>, text: &str)
    ensures
        final(out)@ == old(out)@ + text@,
{
    let mut chars = chars_of(text);
    out.append(&mut chars);
}

impl Recipe {
    /// The texts of the recipe's line of the table.
    pub fn table_row(&self) -> (row: TableRow)
        ensures
            row.level@ == int_text(self.level as int),
            row.recipe@ == label_of(self.item.name@),
            row.crystal@ == label_of(tag_of(self.crystal.name@)),
            row.cost@ == cost_text(self@),
            row.value@ == plain_text(value_of(self@)),
            row.profit@ == profit_text(self@),
    {
        let name = chars_of(self.item.name.as_str());
        let crystal = chars_of(self.crystal.name.as_str());
        let end = find_from(&crystal, '_', 0);
        let tag = slice_of(&crystal, 0, end);
        let cost = match self.produce_cost {
            Some(c) => c,
            None => Amount::zero(),
        };
        let mut profit: Vec<char> = self.profit_single().rounded_chars();
        push_text(&mut profit, " (x");
        let mut size = self.output_size.plain_chars();
        profit.append(&mut size);
        push_text(&mut profit, ") / ");
        let mut stack = self.profit_stack().rounded_chars();
        profit.append(&mut stack);
        push_text(&mut profit, " (x");
        let mut stack_size = self.item.stack_size.plain_chars();
        profit.append(&mut stack_size);
        push_text(&mut profit, ")");
        TableRow {
            level: string_of(&int_chars(self.level)),
            recipe: string_of(&label_chars(&name)),
            crystal: string_of(&label_chars(&tag)),
            cost: cost.to_rounded_text(),
            value: self.get_value().to_text(),
            profit: string_of(&profit),
        }
    }
}

} // verus!
