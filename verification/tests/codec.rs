use recipe_calc::amount::Amount;
use recipe_calc::codec::{decode_catalogue, decode_crystals, encode_catalogue, encode_crystals};
use recipe_calc::model::{Choice, Crystals, Item, Price, Recipe};

type PriceRecord = (Option<i64>, Option<i64>, u32);
type ItemRecord = (String, String, i64, i32, PriceRecord, PriceRecord);
type RecipeRecord = (ItemRecord, i64, Vec<ItemRecord>, ItemRecord, i32, Option<i64>);

fn price_record(p: &Price) -> PriceRecord {
    let index = match p.choice {
        Choice::NPC => 0,
        Choice::AH => 1,
    };
    (p.ah.map(|a| a.micros), p.npc.map(|a| a.micros), index)
}

fn item_record(i: &Item) -> ItemRecord {
    (
        i.name.clone(),
        i.id.clone(),
        i.stack_size.micros,
        i.quantity,
        price_record(&i.buy),
        price_record(&i.sell),
    )
}

fn recipe_record(r: &Recipe) -> RecipeRecord {
    (
        item_record(&r.item),
        r.output_size.micros,
        r.ingredients.iter().map(item_record).collect(),
        item_record(&r.crystal),
        r.level,
        r.produce_cost.map(|a| a.micros),
    )
}

fn item(name: &str, id: &str, quantity: i32) -> Item {
    Item {
        name: name.to_string(),
        id: id.to_string(),
        stack_size: Amount::from_units(12),
        quantity,
        buy: Price { ah: Some(Amount::from_micros(-5)), npc: None, choice: Choice::AH },
        sell: Price { ah: None, npc: Some(Amount::from_units(40)), choice: Choice::NPC },
    }
}

fn catalogue() -> Vec<Recipe> {
    vec![
        Recipe {
            item: item("meat_jerky", "4376", 1),
            output_size: Amount::from_units(2),
            ingredients: vec![item("giant_sheep_meat", "4372", 2), item("dried_marjoram", "936", 1)],
            crystal: item("ice_crystal", "4097", 1),
            level: 3,
            produce_cost: Some(Amount::from_micros(33_250_000)),
        },
        Recipe {
            item: item("crème_brûlée", "5", 1),
            output_size: Amount::from_micros(i64::MAX),
            ingredients: Vec::new(),
            crystal: item("", "", i32::MIN),
            level: -1,
            produce_cost: None,
        },
        Recipe {
            item: item("x", "1", i32::MAX),
            output_size: Amount::from_micros(i64::MIN),
            ingredients: vec![item("a", "2", 8)],
            crystal: item("fire_crystal", "4096", 1),
            level: i32::MAX,
            produce_cost: Some(Amount::from_micros(i64::MIN)),
        },
    ]
}

fn crystals() -> Crystals {
    let mut c = Crystals::new();
    c.fire = "120".to_string();
    c.earth = "".to_string();
    c.water = "not a number".to_string();
    c.wind = "12.5".to_string();
    c.ice = "氷".to_string();
    c.lightning = "-3".to_string();
    c.light = " 7 ".to_string();
    c.dark = "0".to_string();
    c
}

#[test]
fn catalogue_survives_saving_and_loading() {
    let saved = encode_catalogue(&catalogue());
    assert_eq!(decode_catalogue(&saved), Some(catalogue()));
    assert_eq!(encode_catalogue(&decode_catalogue(&saved).unwrap()), saved);
}

#[test]
fn cached_cost_is_saved_with_the_recipe() {
    let mut recipes = catalogue();
    recipes[0].produce_cost = Some(Amount::from_micros(1));
    let loaded = decode_catalogue(&encode_catalogue(&recipes)).unwrap();
    assert_eq!(loaded[0].produce_cost, Some(Amount::from_micros(1)));
    assert_eq!(loaded[1].produce_cost, None);
    assert_eq!(loaded, recipes);
}

#[test]
fn empty_catalogue_survives_saving_and_loading() {
    let saved = encode_catalogue(&Vec::new());
    assert_eq!(saved, vec![0u8; 8]);
    assert_eq!(decode_catalogue(&saved), Some(Vec::new()));
}

#[test]
fn crystals_survive_saving_and_loading() {
    let saved = encode_crystals(&crystals());
    assert_eq!(decode_crystals(&saved), Some(crystals()));
    let empty = encode_crystals(&Crystals::new());
    assert_eq!(empty, vec![0u8; 64]);
    assert_eq!(decode_crystals(&empty), Some(Crystals::new()));
}

#[test]
fn bytes_after_the_value_are_ignored() {
    let mut saved = encode_catalogue(&catalogue());
    saved.extend_from_slice(&[1, 2, 3]);
    assert_eq!(decode_catalogue(&saved), Some(catalogue()));
    let mut saved = encode_crystals(&crystals());
    saved.push(0xff);
    assert_eq!(decode_crystals(&saved), Some(crystals()));
}

#[test]
fn catalogue_has_the_layout_of_its_fields() {
    let records: Vec<RecipeRecord> = catalogue().iter().map(recipe_record).collect();
    assert_eq!(encode_catalogue(&catalogue()), bincode::serialize(&records).unwrap());
    let back: Vec<RecipeRecord> = bincode::deserialize(&encode_catalogue(&catalogue())).unwrap();
    assert_eq!(back, records);
}

#[test]
fn crystals_have_the_layout_of_their_fields() {
    let c = crystals();
    let record = (&c.fire, &c.earth, &c.water, &c.wind, &c.ice, &c.lightning, &c.light, &c.dark);
    assert_eq!(encode_crystals(&c), bincode::serialize(&record).unwrap());
}

#[test]
fn bytes_of_one_small_recipe() {
    let bare = Item {
        name: "a".to_string(),
        id: "".to_string(),
        stack_size: Amount::from_micros(1),
        quantity: 2,
        buy: Price { ah: None, npc: Some(Amount::from_micros(-1)), choice: Choice::AH },
        sell: Price { ah: None, npc: None, choice: Choice::NPC },
    };
    let recipe = Recipe {
        item: bare.clone(),
        output_size: Amount::from_micros(258),
        ingredients: Vec::new(),
        crystal: bare,
        level: -2,
        produce_cost: None,
    };
    let item_bytes: Vec<u8> = vec![
        1, 0, 0, 0, 0, 0, 0, 0, b'a', // name
        0, 0, 0, 0, 0, 0, 0, 0, // id
        1, 0, 0, 0, 0, 0, 0, 0, // stack size
        2, 0, 0, 0, // quantity
        0, 1, 255, 255, 255, 255, 255, 255, 255, 255, 1, 0, 0, 0, // buy
        0, 0, 0, 0, 0, 0, // sell
    ];
    let mut expected: Vec<u8> = vec![1, 0, 0, 0, 0, 0, 0, 0];
    expected.extend_from_slice(&item_bytes);
    expected.extend_from_slice(&[2, 1, 0, 0, 0, 0, 0, 0]);
    expected.extend_from_slice(&[0, 0, 0, 0, 0, 0, 0, 0]);
    expected.extend_from_slice(&item_bytes);
    expected.extend_from_slice(&[254, 255, 255, 255]);
    expected.push(0);
    assert_eq!(encode_catalogue(&vec![recipe.clone()]), expected);
    assert_eq!(decode_catalogue(&expected), Some(vec![recipe]));
}

#[test]
fn cut_off_bytes_are_refused() {
    let saved = encode_catalogue(&catalogue());
    for len in 0..saved.len() {
        assert_eq!(decode_catalogue(&saved[..len].to_vec()), None, "{}", len);
    }
    let saved = encode_crystals(&crystals());
    for len in 0..saved.len() {
        assert_eq!(decode_crystals(&saved[..len].to_vec()), None, "{}", len);
    }
}

#[test]
fn broken_bytes_are_refused() {
    let recipes = vec![catalogue().remove(0)];
    let saved = encode_catalogue(&recipes);
    let name_len = "meat_jerky".len();
    let id_len = "4376".len();
    let buy_at = 8 + 8 + name_len + 8 + id_len + 8 + 4;
    assert_eq!(saved[buy_at], 1);
    let mut tag = saved.clone();
    tag[buy_at] = 2;
    assert_eq!(decode_catalogue(&tag), None);
    let choice_at = buy_at + 9 + 1;
    assert_eq!(saved[choice_at], 1);
    let mut choice = saved.clone();
    choice[choice_at] = 2;
    assert_eq!(decode_catalogue(&choice), None);
    let mut flipped = saved.clone();
    flipped[choice_at] = 0;
    let mut expected = recipes.clone();
    expected[0].item.buy.choice = Choice::NPC;
    assert_eq!(decode_catalogue(&flipped), Some(expected));
    let mut text = saved.clone();
    text[16] = 0xff;
    assert_eq!(decode_catalogue(&text), None);
    let mut count = saved.clone();
    count[0] = 2;
    assert_eq!(decode_catalogue(&count), None);
    let mut long = saved.clone();
    long[15] = 0x80;
    assert_eq!(decode_catalogue(&long), None);
    let mut crystals_bytes = encode_crystals(&crystals());
    crystals_bytes[8] = 0xc0;
    assert_eq!(decode_crystals(&crystals_bytes), None);
}
