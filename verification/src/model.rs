//! The data model: items, prices, recipes and the crystal price record.

use vstd::prelude::*;
use crate::amount::{Amount, SCALE};
use crate::text::is_text;

verus! {

/// Which of an item's two prices is in force.
#[derive(Clone, Copy, Debug, PartialEq, Eq, Structural)]
pub enum Choice {
    /// The vendor's price.
    NPC,
    /// The auction-house price.
    AH,
}

/// The two prices of an item on one side of a trade, and which one counts.
#[derive(Clone, Copy, Debug, PartialEq, Eq)]
pub struct Price {
    /// The auction-house price, once the user has supplied one.
    pub ah: Option<Amount>,
    /// The vendor's price, if a vendor trades the item.
    pub npc: Option<Amount>,
    /// The price in force.
    pub choice: Choice,
}

impl Default for Choice {
    /// The vendor's price is in force unless the user says otherwise.
    fn default() -> (c: Choice)
        ensures
            c == Choice::NPC,
    {
        Choice::NPC
    }
}

impl Default for Price {
    /// No price is known yet, and the vendor's is in force.
    fn default() -> (p: Price)
        ensures
            p == (Price { ah: None, npc: None, choice: Choice::NPC }),
    {
        Price { ah: None, npc: None, choice: Choice::NPC }
    }
}

impl Price {
    /// The price in force; none if the chosen one is not known. There is no
    /// falling back on the other price.
    pub open spec fn resolved(self) -> Option<Amount> {
        match self.choice {
            Choice::NPC => self.npc,
            Choice::AH => self.ah,
        }
    }

    /// A vendor-priced record with the given vendor price and no
    /// auction-house price.
    pub fn vendor(npc: Option<Amount>) -> (p: Price)
        ensures
            p == (Price { ah: None, npc, choice: Choice::NPC }),
    {
        Price { ah: None, npc, choice: Choice::NPC }
    }

    /// The price in force.
    pub fn resolve(&self) -> (r: Option<Amount>)
        ensures
            r == self.resolved(),
    {
        match self.choice {
            Choice::NPC => self.npc,
            Choice::AH => self.ah,
        }
    }
}

/// The side of a trade on which an item is priced.
#[derive(Clone, Copy, Debug, PartialEq, Eq, Structural)]
pub enum Side {
    /// The item is consumed.
    Buy,
    /// The item is produced.
    Sell,
}

/// An item of the game: produced by a recipe or consumed by one.
#[derive(Clone, Debug, PartialEq, Eq)]
pub struct Item {
    /// Lower-snake-cased identifier.
    pub name: String,
    /// Key of the item in the item table.
    pub id: String,
    /// How many units fit in one inventory stack.
    pub stack_size: Amount,
    /// How many units an ingredient line stands for.
    pub quantity: i32,
    /// Prices for consuming the item.
    pub buy: Price,
    /// Prices for producing the item.
    pub sell: Price,
}

/// An item with its texts as character sequences.
pub struct ItemView {
    pub name: Seq<char>,
    pub id: Seq<char>,
    pub stack_size: Amount,
    pub quantity: i32,
    pub buy: Price,
    pub sell: Price,
}

impl View for Item {
    type V = ItemView;

    open spec fn view(&self) -> ItemView {
        ItemView {
            name: self.name@,
            id: self.id@,
            stack_size: self.stack_size,
            quantity: self.quantity,
            buy: self.buy,
            sell: self.sell,
        }
    }
}

impl ItemView {
    /// The price of the item on `side`.
    pub open spec fn price_on(self, side: Side) -> Option<Amount> {
        match side {
            Side::Buy => self.buy.resolved(),
            Side::Sell => self.sell.resolved(),
        }
    }

    /// An item counts at least once and stacks at least by one.
    pub open spec fn wf(self) -> bool {
        self.quantity >= 1 && self.stack_size.micros >= SCALE
    }
}

/// One craft: what it consumes, what it yields and what it costs.
#[derive(Clone, Debug, PartialEq, Eq)]
pub struct Recipe {
    /// The item produced.
    pub item: Item,
    /// Units produced by one craft.
    pub output_size: Amount,
    /// The items consumed, each once, in the order in which they first
    /// occur in the recipe table.
    pub ingredients: Vec<Item>,
    /// The catalyst.
    pub crystal: Item,
    /// The crafting skill required.
    pub level: i32,
    /// The cost of one craft as last calculated; none while an ingredient has
    /// no price.
    pub produce_cost: Option<Amount>,
}

/// A recipe with its items as views.
pub struct RecipeView {
    pub item: ItemView,
    pub output_size: Amount,
    pub ingredients: Seq<ItemView>,
    pub crystal: ItemView,
    pub level: i32,
    pub produce_cost: Option<Amount>,
}

/// The views of a sequence of items.
pub open spec fn item_views(items: Seq<Item>) -> Seq<ItemView> {
    Seq::new(items.len(), |k: int| items[k]@)
}

impl View for Recipe {
    type V = RecipeView;

    open spec fn view(&self) -> RecipeView {
        RecipeView {
            item: self.item@,
            output_size: self.output_size,
            ingredients: item_views(self.ingredients@),
            crystal: self.crystal@,
            level: self.level,
            produce_cost: self.produce_cost,
        }
    }
}

impl RecipeView {
    /// The invariant of a recipe: the level is not negative, every
    /// ingredient counts at least once, a craft yields at least one unit, and
    /// every stack holds at least one.
    pub open spec fn wf(self) -> bool {
        &&& self.level >= 0
        &&& self.output_size.micros >= SCALE
        &&& self.item.wf()
        &&& self.crystal.wf()
        &&& forall|k: int| 0 <= k < self.ingredients.len() ==> (#[trigger] self.ingredients[k]).wf()
    }
}

/// The views of a sequence of recipes.
pub open spec fn recipe_views(recipes: Seq<Recipe>) -> Seq<RecipeView> {
    Seq::new(recipes.len(), |k: int| recipes[k]@)
}

/// The eight elements of crystals.
#[derive(Clone, Copy, Debug, PartialEq, Eq, Structural)]
pub enum Element {
    Fire,
    Earth,
    Water,
    Wind,
    Ice,
    Lightning,
    Light,
    Dark,
}

/// The element that a tag names, if it names one.
pub open spec fn element_of(tag: Seq<char>) -> Option<Element> {
    if tag == "fire"@ {
        Some(Element::Fire)
    } else if tag == "earth"@ {
        Some(Element::Earth)
    } else if tag == "water"@ {
        Some(Element::Water)
    } else if tag == "wind"@ {
        Some(Element::Wind)
    } else if tag == "ice"@ {
        Some(Element::Ice)
    } else if tag == "lightning"@ {
        Some(Element::Lightning)
    } else if tag == "light"@ {
        Some(Element::Light)
    } else if tag == "dark"@ {
        Some(Element::Dark)
    } else {
        None
    }
}

impl Element {
    /// The element that `tag` names, if it names one.
    pub fn from_tag(tag: &Vec<char>) -> (e: Option<Element>)
        ensures
            e == element_of(tag@),
    {
        if is_text(tag, "fire") {
            Some(Element::Fire)
        } else if is_text(tag, "earth") {
            Some(Element::Earth)
        } else if is_text(tag, "water") {
            Some(Element::Water)
        } else if is_text(tag, "wind") {
            Some(Element::Wind)
        } else if is_text(tag, "ice") {
            Some(Element::Ice)
        } else if is_text(tag, "lightning") {
            Some(Element::Lightning)
        } else if is_text(tag, "light") {
            Some(Element::Light)
        } else if is_text(tag, "dark") {
            Some(Element::Dark)
        } else {
            None
        }
    }
}

/// The prices of a stack of crystals of each element, as the user typed them.
#[derive(Clone, Debug, PartialEq, Eq)]
pub struct Crystals {
    pub fire: String,
    pub earth: String,
    pub water: String,
    pub wind: String,
    pub ice: String,
    pub lightning: String,
    pub light: String,
    pub dark: String,
}

/// The crystal price record with its entries as character sequences.
pub struct CrystalsView {
    pub fire: Seq<char>,
    pub earth: Seq<char>,
    pub water: Seq<char>,
    pub wind: Seq<char>,
    pub ice: Seq<char>,
    pub lightning: Seq<char>,
    pub light: Seq<char>,
    pub dark: Seq<char>,
}

impl CrystalsView {
    /// The entry for `element`.
    pub open spec fn entry(self, element: Element) -> Seq<char> {
        match element {
            Element::Fire => self.fire,
            Element::Earth => self.earth,
            Element::Water => self.water,
            Element::Wind => self.wind,
            Element::Ice => self.ice,
            Element::Lightning => self.lightning,
            Element::Light => self.light,
            Element::Dark => self.dark,
        }
    }

    /// The record with the entry for `element` replaced by `text`.
    pub open spec fn with_entry(self, element: Element, text: Seq<char>) -> CrystalsView {
        match element {
            Element::Fire => CrystalsView { fire: text, ..self },
            Element::Earth => CrystalsView { earth: text, ..self },
            Element::Water => CrystalsView { water: text, ..self },
            Element::Wind => CrystalsView { wind: text, ..self },
            Element::Ice => CrystalsView { ice: text, ..self },
            Element::Lightning => CrystalsView { lightning: text, ..self },
            Element::Light => CrystalsView { light: text, ..self },
            Element::Dark => CrystalsView { dark: text, ..self },
        }
    }
}

impl View for Crystals {
    type V = CrystalsView;

    open spec fn view(&self) -> CrystalsView {
        CrystalsView {
            fire: self.fire@,
            earth: self.earth@,
            water: self.water@,
            wind: self.wind@,
            ice: self.ice@,
            lightning: self.lightning@,
            light: self.light@,
            dark: self.dark@,
        }
    }
}

impl Default for Crystals {
    /// A record with every entry empty.
    fn default() -> (c: Crystals)
        ensures
            forall|e: Element| (#[trigger] c@.entry(e)).len() == 0,
    {
        Crystals::new()
    }
}

impl Crystals {
    /// A record with every entry empty.
    pub fn new() -> (c: Crystals)
        ensures
            forall|e: Element| (#[trigger] c@.entry(e)).len() == 0,
    {
        Crystals {
            fire: String::new(),
            earth: String::new(),
            water: String::new(),
            wind: String::new(),
            ice: String::new(),
            lightning: String::new(),
            light: String::new(),
            dark: String::new(),
        }
    }

    /// The entry for `element`.
    pub fn entry(&self, element: Element) -> (text: &String)
        ensures
            text@ == self@.entry(element),
    {
        match element {
            Element::Fire => &self.fire,
            Element::Earth => &self.earth,
            Element::Water => &self.water,
            Element::Wind => &self.wind,
            Element::Ice => &self.ice,
            Element::Lightning => &self.lightning,
            Element::Light => &self.light,
            Element::Dark => &self.dark,
        }
    }

    /// Stores `text` as it is as the entry for `element`.
    pub fn set_entry(&mut self, element: Element, text: String)
        ensures
            final(self)@ == old(self)@.with_entry(element, text@),
    {
        match element {
            Element::Fire => {
                self.fire = text;
            },
            Element::Earth => {
                self.earth = text;
            },
            Element::Water => {
                self.water = text;
            },
            Element::Wind => {
                self.wind = text;
            },
            Element::Ice => {
                self.ice = text;
            },
            Element::Lightning => {
                self.lightning = text;
            },
            Element::Light => {
                self.light = text;
            },
            Element::Dark => {
                self.dark = text;
            },
        }
    }
}

} // verus!
