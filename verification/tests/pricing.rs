use recipe_calc::amount::Amount;
use recipe_calc::catalogue::Catalogue;
use recipe_calc::ingest::IngestError;
use recipe_calc::model::{Choice, Crystals, Item, Price, Recipe, Side};
use recipe_calc::pricing::resolve_price;

fn units(n: i64) -> Amount {
    Amount::from_units(n)
}

fn item(name: &str, id: &str, quantity: i32, buy_npc: Option<i64>) -> Item {
    Item {
        name: name.to_string(),
        id: id.to_string(),
        stack_size: units(12),
        quantity,
        buy: Price { ah: None, npc: buy_npc.map(units), choice: Choice::NPC },
        sell: Price { ah: None, npc: None, choice: Choice::NPC },
    }
}

fn sample(crystal_name: &str) -> Recipe {
    let mut output = item("meat_jerky", "4376", 1, None);
    output.sell.npc = Some(units(40));
    Recipe {
        item: output,
        output_size: units(1),
        ingredients: vec![item("a", "1", 2, Some(10)), item("b", "2", 1, Some(5))],
        crystal: item(crystal_name, "4096", 1, None),
        level: 3,
        produce_cost: None,
    }
}

fn crystals_with_fire(text: &str) -> Crystals {
    let mut c = Crystals::new();
    c.fire = text.to_string();
    c
}

#[test]
fn cost_value_and_profit_of_a_priced_recipe() {
    let mut r = sample("fire_crystal");
    let share = r.get_crystal_cost(&crystals_with_fire("120"));
    assert_eq!(share, units(10));
    r.calculate_produce_cost(share);
    assert_eq!(r.produce_cost, Some(units(35)));
    assert_eq!(r.get_value(), units(40));
    assert_eq!(r.profit_single(), units(5));
    assert_eq!(r.profit_stack(), units(60));
}

#[test]
fn no_cost_when_the_chosen_price_is_missing() {
    let mut r = sample("fire_crystal");
    r.ingredients[0].buy.choice = Choice::AH;
    r.produce_cost = Some(units(1));
    let share = r.get_crystal_cost(&crystals_with_fire("120"));
    r.calculate_produce_cost(share);
    assert_eq!(r.produce_cost, None);
    assert_eq!(r.table_row().cost, "0.0");
    assert_eq!(r.profit_single(), units(40));
}

#[test]
fn no_fallback_between_the_two_prices() {
    let mut it = item("a", "1", 1, Some(10));
    assert_eq!(resolve_price(&it, Side::Buy), Some(units(10)));
    assert_eq!(resolve_price(&it, Side::Sell), None);
    it.buy.choice = Choice::AH;
    assert_eq!(resolve_price(&it, Side::Buy), None);
    it.buy.ah = Some(units(7));
    assert_eq!(resolve_price(&it, Side::Buy), Some(units(7)));
    it.sell.ah = Some(units(3));
    assert_eq!(resolve_price(&it, Side::Sell), None);
    it.sell.choice = Choice::AH;
    assert_eq!(resolve_price(&it, Side::Sell), Some(units(3)));
}

#[test]
fn resolve_price_gives_the_same_answer_twice() {
    let it = item("a", "1", 1, Some(10));
    let again = it.clone();
    assert_eq!(resolve_price(&it, Side::Buy), resolve_price(&again, Side::Buy));
    assert_eq!(resolve_price(&it, Side::Buy), resolve_price(&it, Side::Buy));
}

#[test]
fn unknown_crystal_costs_nothing() {
    let r = sample("moon_crystal");
    let mut c = Crystals::new();
    c.fire = "120".to_string();
    c.earth = "240".to_string();
    c.water = "1".to_string();
    c.wind = "2".to_string();
    c.ice = "3".to_string();
    c.lightning = "4".to_string();
    c.light = "5".to_string();
    c.dark = "6".to_string();
    assert_eq!(r.get_crystal_cost(&c), Amount::zero());
}

#[test]
fn every_element_reads_its_own_entry() {
    let mut c = Crystals::new();
    c.fire = "12".to_string();
    c.earth = "24".to_string();
    c.water = "36".to_string();
    c.wind = "48".to_string();
    c.ice = "60".to_string();
    c.lightning = "72".to_string();
    c.light = "84".to_string();
    c.dark = "96".to_string();
    let tags = ["fire", "earth", "water", "wind", "ice", "lightning", "light", "dark"];
    for (k, tag) in tags.iter().enumerate() {
        let r = sample(&format!("{}_crystal", tag));
        assert_eq!(r.get_crystal_cost(&c), units(k as i64 + 1));
    }
    assert_eq!(sample("light").get_crystal_cost(&c), units(7));
    assert_eq!(sample("lightning_").get_crystal_cost(&c), units(6));
    assert_eq!(sample("Fire_crystal").get_crystal_cost(&c), Amount::zero());
    assert_eq!(sample("").get_crystal_cost(&c), Amount::zero());
}

#[test]
fn unreadable_crystal_price_counts_as_zero() {
    let r = sample("fire_crystal");
    assert_eq!(r.get_crystal_cost(&crystals_with_fire("")), Amount::zero());
    assert_eq!(r.get_crystal_cost(&crystals_with_fire("abc")), Amount::zero());
    assert_eq!(r.get_crystal_cost(&crystals_with_fire("12 ")), Amount::zero());
    assert_eq!(r.get_crystal_cost(&crystals_with_fire("inf")), Amount::zero());
    assert_eq!(r.get_crystal_cost(&crystals_with_fire("NaN")), Amount::zero());
    assert_eq!(r.get_crystal_cost(&crystals_with_fire("1e")), Amount::zero());
}

#[test]
fn crystal_price_may_have_an_exponent() {
    let r = sample("fire_crystal");
    assert_eq!(r.get_crystal_cost(&crystals_with_fire("1e3")), Amount::from_micros(83_333_333));
    assert_eq!(r.get_crystal_cost(&crystals_with_fire("1.2E2")), units(10));
    assert_eq!(r.get_crystal_cost(&crystals_with_fire("1200e-1")), units(10));
    assert_eq!(r.get_crystal_cost(&crystals_with_fire("-1.2e2")), units(-10));
}

#[test]
fn crystal_share_is_a_twelfth() {
    let r = sample("fire_crystal");
    assert_eq!(r.get_crystal_cost(&crystals_with_fire("100")), Amount::from_micros(8_333_333));
    assert_eq!(r.get_crystal_cost(&crystals_with_fire("0.5")), Amount::from_micros(41_666));
    assert_eq!(r.get_crystal_cost(&crystals_with_fire("-120")), units(-10));
    assert_eq!(r.get_crystal_cost(&crystals_with_fire("0")), Amount::zero());
}

#[test]
fn crystal_cost_is_not_negative_for_prices_that_are_not() {
    let r = sample("fire_crystal");
    for text in ["0", "1", "11", "12", "119.999999", "5000000", "", "x"] {
        assert!(r.get_crystal_cost(&crystals_with_fire(text)).micros >= 0);
    }
}

#[test]
fn profit_line_of_a_recipe() {
    let mut r = sample("fire_crystal");
    r.output_size = units(3);
    r.item.stack_size = units(12);
    r.item.sell.npc = Some(units(20));
    r.produce_cost = Some(units(30));
    assert_eq!(r.get_value(), units(60));
    assert_eq!(r.table_row().profit, "30.0 (x3) / 120.0 (x12)");
}

#[test]
fn table_row_of_a_recipe() {
    let mut r = sample("fire_crystal");
    r.produce_cost = Some(Amount::from_micros(33_250_000));
    let row = r.table_row();
    assert_eq!(row.level, "3");
    assert_eq!(row.recipe, "Meat Jerky");
    assert_eq!(row.crystal, "Fire");
    assert_eq!(row.cost, "33.2");
    assert_eq!(row.value, "40");
    assert_eq!(row.profit, "6.8 (x1) / 81.0 (x12)");
    r.level = -7;
    assert_eq!(r.table_row().level, "-7");
}

#[test]
fn negative_profit_is_shown_as_it_is() {
    let mut r = sample("fire_crystal");
    r.produce_cost = Some(units(50));
    assert_eq!(r.profit_single(), units(-10));
    assert_eq!(r.profit_stack(), units(-120));
    assert_eq!(r.table_row().profit, "-10.0 (x1) / -120.0 (x12)");
}

#[test]
fn stack_profit_is_zero_without_output() {
    let mut r = sample("fire_crystal");
    r.output_size = Amount::zero();
    r.produce_cost = Some(units(1));
    assert_eq!(r.profit_stack(), Amount::zero());
}

#[test]
fn cost_sums_price_times_quantity() {
    let mut r = sample("fire_crystal");
    r.ingredients = vec![
        item("a", "1", 3, Some(7)),
        item("b", "2", 1, Some(0)),
        item("c", "3", 4, Some(25)),
    ];
    r.calculate_produce_cost(Amount::from_micros(500_000));
    assert_eq!(r.produce_cost, Some(Amount::from_micros(121_500_000)));
    r.ingredients.clear();
    r.calculate_produce_cost(units(2));
    assert_eq!(r.produce_cost, Some(units(2)));
}

#[test]
fn cost_saturates_at_the_end_of_the_range() {
    let mut r = sample("fire_crystal");
    r.ingredients[0].buy.npc = Some(Amount::from_micros(i64::MAX));
    r.calculate_produce_cost(Amount::zero());
    assert_eq!(r.produce_cost, Some(Amount::from_micros(i64::MAX)));
}

#[test]
fn calculating_changes_the_cost_only() {
    let mut r = sample("fire_crystal");
    let before = r.clone();
    r.calculate_produce_cost(units(1));
    let mut expected = before;
    expected.produce_cost = Some(units(26));
    assert_eq!(r, expected);
}

#[test]
fn recalculate_prices_every_recipe() {
    let mut second = sample("earth_crystal");
    second.ingredients[1].buy.npc = None;
    let mut third = sample("dark_crystal");
    third.ingredients.pop();
    let mut c = Catalogue::new(vec![sample("fire_crystal"), second, third]);
    assert!(c.set_crystal("fire", "120"));
    assert!(c.set_crystal("dark", "6"));
    assert!(!c.set_crystal("moon", "6"));
    assert!(!c.set_crystal("Fire", "6"));
    assert_eq!(c.crystals.fire, "120");
    assert_eq!(c.crystals.dark, "6");
    assert_eq!(c.crystals.earth, "");
    c.recalculate();
    let costs: Vec<Option<Amount>> = c.list_recipes().iter().map(|r| r.produce_cost).collect();
    assert_eq!(costs, vec![Some(units(35)), None, Some(Amount::from_micros(20_500_000))]);
    assert_eq!(c.list_recipes().len(), 3);
    assert_eq!(c.list_recipes()[0].level, 3);
}

#[test]
fn cost_is_not_refreshed_until_asked() {
    let mut c = Catalogue::new(vec![sample("fire_crystal")]);
    c.recalculate();
    assert_eq!(c.recipes[0].produce_cost, Some(units(25)));
    c.set_crystal("fire", "120");
    c.recipes[0].ingredients[0].buy.npc = Some(units(1));
    assert_eq!(c.recipes[0].produce_cost, Some(units(25)));
    c.recalculate();
    assert_eq!(c.recipes[0].produce_cost, Some(units(17)));
}

#[test]
fn crystal_entries_are_stored_as_typed() {
    let mut c = Catalogue::new(Vec::new());
    assert!(c.set_crystal("ice", " 12x "));
    assert_eq!(c.crystals.ice, " 12x ");
}

#[test]
fn catalogue_is_saved_and_opened() {
    let mut c = Catalogue::new(vec![sample("fire_crystal"), sample("moon_crystal")]);
    c.set_crystal("fire", "120");
    c.recalculate();
    let opened = Catalogue::open(&c.save_recipes()).unwrap();
    assert_eq!(opened.recipes, c.recipes);
    assert_eq!(opened.recipes[0].produce_cost, Some(units(35)));
    assert_eq!(opened.crystals, Crystals::new());
    assert_eq!(Catalogue::open(&vec![1, 2, 3]), None);
    assert_eq!(Catalogue::open(&Vec::new()), None);
}

#[test]
fn crystal_prices_are_saved_and_loaded() {
    let mut c = Catalogue::new(vec![sample("fire_crystal")]);
    c.set_crystal("wind", "9");
    c.set_crystal("dark", "x");
    let saved = c.save_crystals();
    let mut other = Catalogue::new(vec![sample("ice_crystal")]);
    other.set_crystal("fire", "1");
    assert!(other.load_crystals(&saved));
    assert_eq!(other.crystals, c.crystals);
    assert_eq!(other.crystals.fire, "");
    assert_eq!(other.recipes, vec![sample("ice_crystal")]);
}

#[test]
fn broken_crystal_prices_change_nothing() {
    let mut c = Catalogue::new(vec![sample("fire_crystal")]);
    c.set_crystal("wind", "9");
    let before = c.clone();
    let mut saved = c.save_crystals();
    saved.pop();
    assert!(!c.load_crystals(&saved));
    assert!(!c.load_crystals(&Vec::new()));
    assert_eq!(c, before);
}

#[test]
fn errors_are_described() {
    assert_eq!(IngestError::Malformed.describe(), "malformed row");
    assert_eq!(IngestError::Mismatch.describe(), "not the row or the items asked for");
}

#[test]
fn defaults_are_vendor_priced_and_empty() {
    assert_eq!(Choice::default(), Choice::NPC);
    assert_eq!(Price::default(), Price { ah: None, npc: None, choice: Choice::NPC });
    assert_eq!(Crystals::default(), Crystals::new());
    assert_eq!(Crystals::new().fire, "");
    assert_eq!(Crystals::new().dark, "");
}

#[test]
fn order_of_ingredients_does_not_change_the_cost() {
    let mut r = sample("fire_crystal");
    r.ingredients = vec![
        item("a", "1", 3, Some(7)),
        item("b", "2", 1, Some(11)),
        item("c", "3", 4, Some(25)),
    ];
    r.calculate_produce_cost(units(2));
    let cost = r.produce_cost;
    assert_eq!(cost, Some(units(134)));
    r.ingredients.swap(0, 2);
    r.calculate_produce_cost(units(2));
    assert_eq!(r.produce_cost, cost);
    r.ingredients.swap(1, 2);
    r.calculate_produce_cost(units(2));
    assert_eq!(r.produce_cost, cost);
}

#[test]
fn cost_is_exact_though_running_totals_leave_the_range() {
    let mut r = sample("fire_crystal");
    let mut high = item("a", "1", 2, None);
    high.buy.npc = Some(Amount::from_micros(i64::MAX));
    let mut low = item("b", "2", 2, None);
    low.buy.npc = Some(Amount::from_micros(i64::MIN));
    r.ingredients = vec![high.clone(), high.clone(), low.clone(), low.clone(), item("c", "3", 1, Some(5))];
    r.calculate_produce_cost(units(1));
    assert_eq!(r.produce_cost, Some(Amount::from_micros(6_000_000 - 4)));
    r.ingredients = vec![low.clone(), item("c", "3", 1, Some(5)), high.clone()];
    r.calculate_produce_cost(units(1));
    assert_eq!(r.produce_cost, Some(Amount::from_micros(6_000_000 - 2)));
    r.ingredients = vec![low.clone(), low];
    r.calculate_produce_cost(Amount::from_micros(i64::MAX));
    assert_eq!(r.produce_cost, Some(Amount::from_micros(i64::MIN)));
    r.ingredients = vec![high; 5];
    r.ingredients[0].quantity = i32::MAX;
    r.ingredients[1].quantity = i32::MAX;
    r.ingredients[2].quantity = i32::MAX;
    r.ingredients[3].quantity = i32::MAX;
    r.ingredients[4].quantity = i32::MAX;
    r.calculate_produce_cost(Amount::from_micros(i64::MIN));
    assert_eq!(r.produce_cost, Some(Amount::from_micros(i64::MAX)));
    for i in r.ingredients.iter_mut() {
        i.quantity = i32::MIN;
    }
    r.calculate_produce_cost(Amount::from_micros(i64::MAX));
    assert_eq!(r.produce_cost, Some(Amount::from_micros(i64::MIN)));
}
