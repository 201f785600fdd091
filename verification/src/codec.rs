//! Persistence: the byte form of the recipe catalogue and of the crystal
//! price record, and the way back.
//!
//! A record is the wire forms of its fields one after another, a sequence
//! is its length and then its elements, a choice is its index. Reading
//! ignores whatever follows the value.

use vstd::prelude::*;
use vstd::utf8::encode_utf8;
use crate::amount::Amount;
use crate::model::{
    item_views, recipe_views, Choice, Crystals, CrystalsView, Item, ItemView, Price, Recipe,
    RecipeView,
};
use crate::wire::{
    get_i32, get_i64, get_option, get_text, get_u32, get_u64, holds, i32_read, i32_wire,
    i64_read, i64_wire, lemma_holds_front, lemma_holds_split, lemma_i32_at, lemma_i64_at,
    lemma_option_at, lemma_skip_skip, lemma_text_at, lemma_text_read_len, lemma_u32_at,
    lemma_u64_at, option_len, option_read, option_wire, put_i32, put_i64, put_option, put_text,
    put_u32, put_u64, rest_of, text_len, text_read, text_wire, u32_read, u32_wire, u64_read,
    u64_wire,
};

verus! {

/// The number of millionths of an optional amount.
pub open spec fn micros_of(a: Option<Amount>) -> Option<i64> {
    match a {
        Some(x) => Some(x.micros),
        None => None,
    }
}

/// The optional amount of that many millionths.
pub open spec fn amount_from(v: Option<i64>) -> Option<Amount> {
    match v {
        Some(m) => Some(Amount { micros: m }),
        None => None,
    }
}

/// The index of a choice.
pub open spec fn choice_index(c: Choice) -> u32 {
    match c {
        Choice::NPC => 0,
        Choice::AH => 1,
    }
}

/// The byte form of a price record.
#[verifier::opaque]
pub open spec fn price_wire(p: Price) -> Seq<u8> {
    option_wire(micros_of(p.ah)) + option_wire(micros_of(p.npc)) + u32_wire(choice_index(p.choice))
}

/// The price record at the front of `b` and the number of bytes it takes.
#[verifier::opaque]
pub open spec fn price_read(b: Seq<u8>) -> Option<(Price, int)> {
    match option_read(b) {
        Some(ah) => {
            let p1 = option_len(ah);
            match option_read(b.skip(p1)) {
                Some(npc) => {
                    let p2 = p1 + option_len(npc);
                    match u32_read(b.skip(p2)) {
                        Some(c) => if c == 0 {
                            Some(
                                (
                                    Price {
                                        ah: amount_from(ah),
                                        npc: amount_from(npc),
                                        choice: Choice::NPC,
                                    },
                                    p2 + 4,
                                ),
                            )
                        } else if c == 1 {
                            Some(
                                (
                                    Price {
                                        ah: amount_from(ah),
                                        npc: amount_from(npc),
                                        choice: Choice::AH,
                                    },
                                    p2 + 4,
                                ),
                            )
                        } else {
                            None
                        },
                        None => None,
                    }
                },
                None => None,
            }
        },
        None => None,
    }
}

/// The byte form of an item.
#[verifier::opaque]
pub open spec fn item_wire(i: ItemView) -> Seq<u8> {
    text_wire(i.name) + text_wire(i.id) + i64_wire(i.stack_size.micros) + i32_wire(i.quantity)
        + price_wire(i.buy) + price_wire(i.sell)
}

/// The item at the front of `b` and the number of bytes it takes.
#[verifier::opaque]
pub open spec fn item_read(b: Seq<u8>) -> Option<(ItemView, int)> {
    match text_read(b) {
        Some(name) => {
            let p1 = text_len(name);
            match text_read(b.skip(p1)) {
                Some(id) => {
                    let p2 = p1 + text_len(id);
                    match (i64_read(b.skip(p2)), i32_read(b.skip(p2 + 8))) {
                        (Some(stack), Some(quantity)) => {
                            match price_read(b.skip(p2 + 12)) {
                                Some((buy, n5)) => {
                                    let p5 = p2 + 12 + n5;
                                    match price_read(b.skip(p5)) {
                                        Some((sell, n6)) => Some(
                                            (
                                                ItemView {
                                                    name,
                                                    id,
                                                    stack_size: Amount { micros: stack },
                                                    quantity,
                                                    buy,
                                                    sell,
                                                },
                                                p5 + n6,
                                            ),
                                        ),
                                        None => None,
                                    }
                                },
                                None => None,
                            }
                        },
                        _ => None,
                    }
                },
                None => None,
            }
        },
        None => None,
    }
}

/// The byte forms of items, one after another.
pub open spec fn items_wire(items: Seq<ItemView>) -> Seq<u8>
    decreases items.len(),
{
    if items.len() == 0 {
        Seq::<u8>::empty()
    } else {
        items_wire(items.drop_last()) + item_wire(items.last())
    }
}

/// The `count` items at the front of `b` and the number of bytes they take.
pub open spec fn items_read(b: Seq<u8>, count: nat) -> Option<(Seq<ItemView>, int)>
    decreases count,
{
    if count == 0 {
        Some((Seq::<ItemView>::empty(), 0))
    } else {
        match item_read(b) {
            Some((first, n)) => match items_read(b.skip(n), (count - 1) as nat) {
                Some((others, m)) => Some((seq![first] + others, n + m)),
                None => None,
            },
            None => None,
        }
    }
}

/// The byte form of a recipe.
#[verifier::opaque]
pub open spec fn recipe_wire(r: RecipeView) -> Seq<u8> {
    item_wire(r.item) + i64_wire(r.output_size.micros) + u64_wire(r.ingredients.len() as u64)
        + items_wire(r.ingredients) + item_wire(r.crystal) + i32_wire(r.level) + option_wire(
        micros_of(r.produce_cost),
    )
}

/// The recipe at the front of `b` and the number of bytes it takes.
#[verifier::opaque]
pub open spec fn recipe_read(b: Seq<u8>) -> Option<(RecipeView, int)> {
    match item_read(b) {
        Some((item, p1)) => {
            match (i64_read(b.skip(p1)), u64_read(b.skip(p1 + 8))) {
                (Some(size), Some(count)) => {
                    match items_read(b.skip(p1 + 16), count as nat) {
                        Some((ingredients, n4)) => {
                            let p4 = p1 + 16 + n4;
                            match item_read(b.skip(p4)) {
                                Some((crystal, n5)) => {
                                    let p5 = p4 + n5;
                                    match (i32_read(b.skip(p5)), option_read(b.skip(p5 + 4))) {
                                        (Some(level), Some(cost)) => Some(
                                            (
                                                RecipeView {
                                                    item,
                                                    output_size: Amount { micros: size },
                                                    ingredients,
                                                    crystal,
                                                    level,
                                                    produce_cost: amount_from(cost),
                                                },
                                                p5 + 4 + option_len(cost),
                                            ),
                                        ),
                                        _ => None,
                                    }
                                },
                                None => None,
                            }
                        },
                        None => None,
                    }
                },
                _ => None,
            }
        },
        None => None,
    }
}

/// The byte forms of recipes, one after another.
pub open spec fn recipes_wire(recipes: Seq<RecipeView>) -> Seq<u8>
    decreases recipes.len(),
{
    if recipes.len() == 0 {
        Seq::<u8>::empty()
    } else {
        recipes_wire(recipes.drop_last()) + recipe_wire(recipes.last())
    }
}

/// The `count` recipes at the front of `b` and the number of bytes they
/// take.
pub open spec fn recipes_read(b: Seq<u8>, count: nat) -> Option<(Seq<RecipeView>, int)>
    decreases count,
{
    if count == 0 {
        Some((Seq::<RecipeView>::empty(), 0))
    } else {
        match recipe_read(b) {
            Some((first, n)) => match recipes_read(b.skip(n), (count - 1) as nat) {
                Some((others, m)) => Some((seq![first] + others, n + m)),
                None => None,
            },
            None => None,
        }
    }
}

/// The byte form of a catalogue: the number of its recipes, then the
/// recipes.
pub open spec fn catalogue_wire(recipes: Seq<RecipeView>) -> Seq<u8> {
    u64_wire(recipes.len() as u64) + recipes_wire(recipes)
}

/// The catalogue that `b` holds, if it holds one.
pub open spec fn catalogue_read(b: Seq<u8>) -> Option<Seq<RecipeView>> {
    match u64_read(b) {
        Some(count) => match recipes_read(b.skip(8), count as nat) {
            Some((recipes, _)) => Some(recipes),
            None => None,
        },
        None => None,
    }
}

/// The byte forms of texts, one after another.
pub open spec fn texts_wire(texts: Seq<Seq<char>>) -> Seq<u8>
    decreases texts.len(),
{
    if texts.len() == 0 {
        Seq::<u8>::empty()
    } else {
        texts_wire(texts.drop_last()) + text_wire(texts.last())
    }
}

/// The eight entries of the crystal price record, in the order of its
/// fields.
pub open spec fn entries(c: CrystalsView) -> Seq<Seq<char>> {
    seq![c.fire, c.earth, c.water, c.wind, c.ice, c.lightning, c.light, c.dark]
}

/// The byte form of the crystal price record: its eight entries.
pub open spec fn crystals_wire(c: CrystalsView) -> Seq<u8> {
    texts_wire(entries(c))
}

/// The texts at the front of `b`, `count` of them, and the number of bytes
/// they take.
pub open spec fn texts_read(b: Seq<u8>, count: nat) -> Option<(Seq<Seq<char>>, int)>
    decreases count,
{
    if count == 0 {
        Some((Seq::<Seq<char>>::empty(), 0))
    } else {
        match text_read(b) {
            Some(first) => match texts_read(b.skip(text_len(first)), (count - 1) as nat) {
                Some((others, m)) => Some((seq![first] + others, text_len(first) + m)),
                None => None,
            },
            None => None,
        }
    }
}

/// The crystal price record that `b` holds, if it holds one.
pub open spec fn crystals_read(b: Seq<u8>) -> Option<CrystalsView> {
    match texts_read(b, 8) {
        Some((t, _)) => Some(
            CrystalsView {
                fire: t[0],
                earth: t[1],
                water: t[2],
                wind: t[3],
                ice: t[4],
                lightning: t[5],
                light: t[6],
                dark: t[7],
            },
        ),
        None => None,
    }
}

/// What was read so far, followed by what the rest of the bytes gives.
pub open spec fn resume<T>(done: Seq<T>, used: int, rest: Option<(Seq<T>, int)>) -> Option<
    (Seq<T>, int),
> {
    match rest {
        Some((others, m)) => Some((done + others, used + m)),
        None => None,
    }
}

proof fn lemma_resume_step<T>(
    done: Seq<T>,
    used: int,
    first: T,
    n: int,
    rest: Option<(Seq<T>, int)>,
)
    ensures
        resume(done, used, resume(seq![first], n, rest)) == resume(
            done.push(first),
            used + n,
            rest,
        ),
{
    match rest {
        Some((others, m)) => {
            assert(done + (seq![first] + others) =~= done.push(first) + others);
        },
        None => {},
    }
}

proof fn lemma_resume_start<T>(rest: Option<(Seq<T>, int)>)
    ensures
        resume(Seq::<T>::empty(), 0, rest) == rest,
{
    match rest {
        Some((others, m)) => {
            assert(Seq::<T>::empty() + others =~= others);
        },
        None => {},
    }
}

fn micros(a: Option<Amount>) -> (v: Option<i64>)
    ensures
        v == micros_of(a),
{
    match a {
        Some(x) => Some(x.micros),
        None => None,
    }
}

fn amount(v: Option<i64>) -> (a: Option<Amount>)
    ensures
        a == amount_from(v),
{
    match v {
        Some(m) => Some(Amount { micros: m }),
        None => None,
    }
}

fn write(out: &mut Vec<u8>, bytes: Vec<u8>)
    ensures
        final(out)@ == old(out)@ + bytes@,
{
    let mut bytes = bytes;
    out.append(&mut bytes);
}

fn write_price(out: &mut Vec<u8>, p: &Price)
    ensures
        final(out)@ == old(out)@ + price_wire(*p),
{
    write(out, put_option(micros(p.ah)));
    write(out, put_option(micros(p.npc)));
    let index: u32 = match p.choice {
        Choice::NPC => 0,
        Choice::AH => 1,
    };
    write(out, put_u32(index));
    reveal(price_wire);
    assert(out@ =~= old(out)@ + price_wire(*p));
}

fn write_item(out: &mut Vec<u8>, item: &Item)
    ensures
        final(out)@ == old(out)@ + item_wire(item@),
{
    write(out, put_text(item.name.as_str()));
    write(out, put_text(item.id.as_str()));
    write(out, put_i64(item.stack_size.micros));
    write(out, put_i32(item.quantity));
    write_price(out, &item.buy);
    write_price(out, &item.sell);
    reveal(item_wire);
    assert(out@ =~= old(out)@ + item_wire(item@));
}

fn write_items(out: &mut Vec<u8>, items: &Vec<Item>)
    ensures
        final(out)@ == old(out)@ + items_wire(item_views(items@)),
{
    let ghost views = item_views(items@);
    let mut k: usize = 0;
    assert(out@ =~= old(out)@ + items_wire(views.take(0)));
    while k < items.len()
        invariant
            k <= items.len(),
            views == item_views(items@),
            out@ == old(out)@ + items_wire(views.take(k as int)),
        decreases items.len() - k,
    {
        let ghost before = out@;
        write_item(out, &items[k]);
        proof {
            assert(views.take(k + 1).drop_last() =~= views.take(k as int));
            assert(views.take(k + 1).last() == items[k as int]@);
            assert(out@ =~= old(out)@ + items_wire(views.take(k + 1)));
        }
        k += 1;
    }
    assert(views.take(k as int) =~= views);
}

fn write_recipe(out: &mut Vec<u8>, recipe: &Recipe)
    ensures
        final(out)@ == old(out)@ + recipe_wire(recipe@),
{
    write_item(out, &recipe.item);
    write(out, put_i64(recipe.output_size.micros));
    write(out, put_u64(recipe.ingredients.len() as u64));
    write_items(out, &recipe.ingredients);
    write_item(out, &recipe.crystal);
    write(out, put_i32(recipe.level));
    write(out, put_option(micros(recipe.produce_cost)));
    reveal(recipe_wire);
    assert(out@ =~= old(out)@ + recipe_wire(recipe@));
}

/// The byte form of a catalogue.
pub fn encode_catalogue(recipes: &Vec<Recipe>) -> (out: Vec<u8>)
    ensures
        out@ == catalogue_wire(recipe_views(recipes@)),
{
    let ghost views = recipe_views(recipes@);
    let mut out: Vec<u8> = put_u64(recipes.len() as u64);
    let ghost head = out@;
    let mut k: usize = 0;
    assert(out@ =~= head + recipes_wire(views.take(0)));
    while k < recipes.len()
        invariant
            k <= recipes.len(),
            views == recipe_views(recipes@),
            out@ == head + recipes_wire(views.take(k as int)),
        decreases recipes.len() - k,
    {
        write_recipe(&mut out, &recipes[k]);
        proof {
            assert(views.take(k + 1).drop_last() =~= views.take(k as int));
            assert(views.take(k + 1).last() == recipes[k as int]@);
            assert(out@ =~= head + recipes_wire(views.take(k + 1)));
        }
        k += 1;
    }
    assert(views.take(k as int) =~= views);
    out
}

/// The byte form of the crystal price record.
pub fn encode_crystals(crystals: &Crystals) -> (out: Vec<u8>)
    ensures
        out@ == crystals_wire(crystals@),
{
    let mut out: Vec<u8> = Vec::new();
    let ghost d0 = Seq::<Seq<char>>::empty();
    let ghost d1 = d0 + seq![crystals.fire@];
    let ghost d2 = d1 + seq![crystals.earth@];
    let ghost d3 = d2 + seq![crystals.water@];
    let ghost d4 = d3 + seq![crystals.wind@];
    let ghost d5 = d4 + seq![crystals.ice@];
    let ghost d6 = d5 + seq![crystals.lightning@];
    let ghost d7 = d6 + seq![crystals.light@];
    let ghost d8 = d7 + seq![crystals.dark@];
    write_entry(&mut out, &crystals.fire, Ghost(d0));
    write_entry(&mut out, &crystals.earth, Ghost(d1));
    write_entry(&mut out, &crystals.water, Ghost(d2));
    write_entry(&mut out, &crystals.wind, Ghost(d3));
    write_entry(&mut out, &crystals.ice, Ghost(d4));
    write_entry(&mut out, &crystals.lightning, Ghost(d5));
    write_entry(&mut out, &crystals.light, Ghost(d6));
    write_entry(&mut out, &crystals.dark, Ghost(d7));
    assert(d8 =~= entries(crystals@));
    out
}

fn write_entry(out: &mut Vec<u8>, text: &String, Ghost(done): Ghost<Seq<Seq<char>>>)
    requires
        old(out)@ == texts_wire(done),
    ensures
        final(out)@ == texts_wire(done + seq![text@]),
{
    write(out, put_text(text.as_str()));
    assert((done + seq![text@]).drop_last() =~= done);
}

fn take_text(bytes: &Vec<u8>, pos: usize) -> (r: Option<(String, usize)>)
    requires
        pos <= bytes.len(),
    ensures
        r is Some <==> text_read(bytes@.skip(pos as int)) is Some,
        r matches Some((s, next)) ==> s@ == text_read(bytes@.skip(pos as int))->0 && next == pos
            + text_len(s@) && next <= bytes.len(),
{
    match get_text(rest_of(bytes, pos)) {
        Some(s) => {
            proof {
                lemma_text_read_len(bytes@.skip(pos as int));
            }
            let next: usize = pos + 8 + s.as_str().len();
            Some((s, next))
        },
        None => None,
    }
}

fn take_option(bytes: &Vec<u8>, pos: usize) -> (r: Option<(Option<i64>, usize)>)
    requires
        pos <= bytes.len(),
    ensures
        r is Some <==> option_read(bytes@.skip(pos as int)) is Some,
        r matches Some((v, next)) ==> v == option_read(bytes@.skip(pos as int))->0 && next == pos
            + option_len(v) && next <= bytes.len(),
{
    match get_option(rest_of(bytes, pos)) {
        Some(v) => {
            let width: usize = if v.is_some() {
                9
            } else {
                1
            };
            Some((v, pos + width))
        },
        None => None,
    }
}

fn take_price(bytes: &Vec<u8>, pos: usize) -> (r: Option<(Price, usize)>)
    requires
        pos <= bytes.len(),
    ensures
        match price_read(bytes@.skip(pos as int)) {
            Some((v, n)) => r matches Some((p, next)) && p == v && next == pos + n && pos < next
                <= bytes.len(),
            None => r is None,
        },
{
    proof {
        reveal(price_read);
    }
    let (ah, p1) = match take_option(bytes, pos) {
        Some(x) => x,
        None => {
            return None;
        },
    };
    proof {
        lemma_skip_skip(bytes@, pos as int, p1 - pos);
    }
    let (npc, p2) = match take_option(bytes, p1) {
        Some(x) => x,
        None => {
            return None;
        },
    };
    proof {
        lemma_skip_skip(bytes@, pos as int, p2 - pos);
    }
    let index = match get_u32(rest_of(bytes, p2)) {
        Some(x) => x,
        None => {
            return None;
        },
    };
    let choice = if index == 0 {
        Choice::NPC
    } else if index == 1 {
        Choice::AH
    } else {
        return None;
    };
    Some((Price { ah: amount(ah), npc: amount(npc), choice }, p2 + 4))
}

fn take_item(bytes: &Vec<u8>, pos: usize) -> (r: Option<(Item, usize)>)
    requires
        pos <= bytes.len(),
    ensures
        match item_read(bytes@.skip(pos as int)) {
            Some((v, n)) => r matches Some((item, next)) && item@ == v && next == pos + n && pos
                < next <= bytes.len(),
            None => r is None,
        },
{
    proof {
        reveal(item_read);
    }
    let (name, p1) = match take_text(bytes, pos) {
        Some(x) => x,
        None => {
            return None;
        },
    };
    proof {
        lemma_skip_skip(bytes@, pos as int, p1 - pos);
    }
    let (id, p2) = match take_text(bytes, p1) {
        Some(x) => x,
        None => {
            return None;
        },
    };
    proof {
        lemma_skip_skip(bytes@, pos as int, p2 - pos);
    }
    let stack = match get_i64(rest_of(bytes, p2)) {
        Some(x) => x,
        None => {
            return None;
        },
    };
    proof {
        lemma_skip_skip(bytes@, pos as int, p2 - pos + 8);
    }
    let quantity = match get_i32(rest_of(bytes, p2 + 8)) {
        Some(x) => x,
        None => {
            return None;
        },
    };
    proof {
        lemma_skip_skip(bytes@, pos as int, p2 - pos + 12);
    }
    let (buy, p5) = match take_price(bytes, p2 + 12) {
        Some(x) => x,
        None => {
            return None;
        },
    };
    proof {
        lemma_skip_skip(bytes@, pos as int, p5 - pos);
    }
    let (sell, p6) = match take_price(bytes, p5) {
        Some(x) => x,
        None => {
            return None;
        },
    };
    let item = Item { name, id, stack_size: Amount { micros: stack }, quantity, buy, sell };
    Some((item, p6))
}

fn take_items(bytes: &Vec<u8>, pos: usize, count: u64) -> (r: Option<(Vec<Item>, usize)>)
    requires
        pos <= bytes.len(),
    ensures
        match items_read(bytes@.skip(pos as int), count as nat) {
            Some((v, n)) => r matches Some((items, next)) && item_views(items@) == v && next
                == pos + n && pos <= next <= bytes.len(),
            None => r is None,
        },
{
    let ghost goal = items_read(bytes@.skip(pos as int), count as nat);
    let mut items: Vec<Item> = Vec::new();
    let mut at: usize = pos;
    let mut k: u64 = 0;
    proof {
        lemma_resume_start(goal);
        assert(item_views(items@) =~= Seq::<ItemView>::empty());
    }
    while k < count
        invariant
            k <= count,
            pos <= at <= bytes.len(),
            goal == items_read(bytes@.skip(pos as int), count as nat),
            goal == resume(
                item_views(items@),
                at - pos,
                items_read(bytes@.skip(at as int), (count - k) as nat),
            ),
        decreases count - k,
    {
        let ghost before = item_views(items@);
        let ghost tail = bytes@.skip(at as int);
        match take_item(bytes, at) {
            Some((item, next)) => {
                proof {
                    let n = next - at;
                    lemma_skip_skip(bytes@, at as int, n);
                    lemma_resume_step(
                        before,
                        at - pos,
                        item@,
                        n,
                        items_read(bytes@.skip(next as int), (count - k - 1) as nat),
                    );
                }
                items.push(item);
                proof {
                    assert(item_views(items@) =~= before.push(item@));
                }
                at = next;
            },
            None => {
                return None;
            },
        }
        k += 1;
    }
    proof {
        assert(item_views(items@) + Seq::<ItemView>::empty() =~= item_views(items@));
    }
    Some((items, at))
}

fn take_recipe(bytes: &Vec<u8>, pos: usize) -> (r: Option<(Recipe, usize)>)
    requires
        pos <= bytes.len(),
    ensures
        match recipe_read(bytes@.skip(pos as int)) {
            Some((v, n)) => r matches Some((recipe, next)) && recipe@ == v && next == pos + n
                && pos < next <= bytes.len(),
            None => r is None,
        },
{
    proof {
        reveal(recipe_read);
    }
    let (item, p1) = match take_item(bytes, pos) {
        Some(x) => x,
        None => {
            return None;
        },
    };
    proof {
        lemma_skip_skip(bytes@, pos as int, p1 - pos);
    }
    let size = match get_i64(rest_of(bytes, p1)) {
        Some(x) => x,
        None => {
            return None;
        },
    };
    proof {
        lemma_skip_skip(bytes@, pos as int, p1 - pos + 8);
    }
    let count = match get_u64(rest_of(bytes, p1 + 8)) {
        Some(x) => x,
        None => {
            return None;
        },
    };
    proof {
        lemma_skip_skip(bytes@, pos as int, p1 - pos + 16);
    }
    let (ingredients, p4) = match take_items(bytes, p1 + 16, count) {
        Some(x) => x,
        None => {
            return None;
        },
    };
    proof {
        lemma_skip_skip(bytes@, pos as int, p4 - pos);
    }
    let (crystal, p5) = match take_item(bytes, p4) {
        Some(x) => x,
        None => {
            return None;
        },
    };
    proof {
        lemma_skip_skip(bytes@, pos as int, p5 - pos);
    }
    let level = match get_i32(rest_of(bytes, p5)) {
        Some(x) => x,
        None => {
            return None;
        },
    };
    proof {
        lemma_skip_skip(bytes@, pos as int, p5 - pos + 4);
    }
    let (cost, p7) = match take_option(bytes, p5 + 4) {
        Some(x) => x,
        None => {
            return None;
        },
    };
    let recipe = Recipe {
        item,
        output_size: Amount { micros: size },
        ingredients,
        crystal,
        level,
        produce_cost: amount(cost),
    };
    Some((recipe, p7))
}

/// Reads a catalogue from its byte form. Bytes after the catalogue are
/// ignored.
pub fn decode_catalogue(bytes: &Vec<u8>) -> (r: Option<Vec<Recipe>>)
    ensures
        r is Some <==> catalogue_read(bytes@) is Some,
        r matches Some(recipes) ==> recipe_views(recipes@) == catalogue_read(bytes@)->0,
{
    assert(bytes@.skip(0) =~= bytes@);
    let count = match get_u64(rest_of(bytes, 0)) {
        Some(x) => x,
        None => {
            return None;
        },
    };
    let ghost goal = recipes_read(bytes@.skip(8), count as nat);
    let mut recipes: Vec<Recipe> = Vec::new();
    let mut at: usize = 8;
    let mut k: u64 = 0;
    proof {
        lemma_resume_start(goal);
        assert(recipe_views(recipes@) =~= Seq::<RecipeView>::empty());
    }
    while k < count
        invariant
            k <= count,
            8 <= at <= bytes.len(),
            u64_read(bytes@) == Some(count),
            goal == recipes_read(bytes@.skip(8), count as nat),
            goal == resume(
                recipe_views(recipes@),
                at - 8,
                recipes_read(bytes@.skip(at as int), (count - k) as nat),
            ),
        decreases count - k,
    {
        let ghost before = recipe_views(recipes@);
        match take_recipe(bytes, at) {
            Some((recipe, next)) => {
                proof {
                    let n = next - at;
                    lemma_skip_skip(bytes@, at as int, n);
                    lemma_resume_step(
                        before,
                        at - 8,
                        recipe@,
                        n,
                        recipes_read(bytes@.skip(next as int), (count - k - 1) as nat),
                    );
                }
                recipes.push(recipe);
                proof {
                    assert(recipe_views(recipes@) =~= before.push(recipe@));
                }
                at = next;
            },
            None => {
                return None;
            },
        }
        k += 1;
    }
    proof {
        assert(recipe_views(recipes@) + Seq::<RecipeView>::empty() =~= recipe_views(recipes@));
    }
    Some(recipes)
}

/// Reads the crystal price record from its byte form. Bytes after the
/// record are ignored.
pub fn decode_crystals(bytes: &Vec<u8>) -> (r: Option<Crystals>)
    ensures
        match crystals_read(bytes@) {
            Some(v) => r matches Some(c) && c@ == v,
            None => r is None,
        },
{
    let ghost goal = texts_read(bytes@, 8);
    let mut texts: Vec<String> = Vec::new();
    let mut at: usize = 0;
    let mut k: usize = 0;
    proof {
        lemma_resume_start(goal);
        assert(bytes@.skip(0) =~= bytes@);
        assert(text_views(texts@) =~= Seq::<Seq<char>>::empty());
    }
    while k < 8
        invariant
            k <= 8,
            at <= bytes.len(),
            texts.len() == k,
            goal == texts_read(bytes@, 8),
            goal == resume(
                text_views(texts@),
                at as int,
                texts_read(bytes@.skip(at as int), (8 - k) as nat),
            ),
        decreases 8 - k,
    {
        let ghost before = text_views(texts@);
        match take_text(bytes, at) {
            Some((text, next)) => {
                proof {
                    lemma_skip_skip(bytes@, at as int, next - at);
                    lemma_resume_step(
                        before,
                        at as int,
                        text@,
                        next - at,
                        texts_read(bytes@.skip(next as int), (8 - k - 1) as nat),
                    );
                }
                texts.push(text);
                proof {
                    assert(text_views(texts@) =~= before.push(text@));
                }
                at = next;
            },
            None => {
                return None;
            },
        }
        k += 1;
    }
    proof {
        assert(text_views(texts@) + Seq::<Seq<char>>::empty() =~= text_views(texts@));
    }
    let dark = texts.pop().unwrap();
    let light = texts.pop().unwrap();
    let lightning = texts.pop().unwrap();
    let ice = texts.pop().unwrap();
    let wind = texts.pop().unwrap();
    let water = texts.pop().unwrap();
    let earth = texts.pop().unwrap();
    let fire = texts.pop().unwrap();
    Some(Crystals { fire, earth, water, wind, ice, lightning, light, dark })
}

/// The views of a sequence of strings.
pub open spec fn text_views(texts: Seq<String>) -> Seq<Seq<char>> {
    Seq::new(texts.len(), |k: int| texts[k]@)
}

/// Whether the length of a text in bytes can be written.
pub open spec fn text_fits(s: Seq<char>) -> bool {
    encode_utf8(s).len() <= u64::MAX
}

/// Whether the texts of an item can be written.
pub open spec fn item_fits(i: ItemView) -> bool {
    text_fits(i.name) && text_fits(i.id)
}

/// Whether the texts of all the items can be written.
pub open spec fn items_fit(items: Seq<ItemView>) -> bool {
    forall|k: int| 0 <= k < items.len() ==> item_fits(#[trigger] items[k])
}

/// Whether the texts and the number of ingredients of a recipe can be
/// written.
pub open spec fn recipe_fits(r: RecipeView) -> bool {
    &&& item_fits(r.item)
    &&& item_fits(r.crystal)
    &&& r.ingredients.len() <= u64::MAX
    &&& items_fit(r.ingredients)
}

/// Whether a catalogue can be written: the number of its recipes and of
/// their ingredients and the length of every text fit in 64 bits.
pub open spec fn catalogue_fits(recipes: Seq<RecipeView>) -> bool {
    &&& recipes.len() <= u64::MAX
    &&& forall|k: int| 0 <= k < recipes.len() ==> recipe_fits(#[trigger] recipes[k])
}

/// Whether the crystal price record can be written.
pub open spec fn crystals_fit(c: CrystalsView) -> bool {
    &&& text_fits(c.fire)
    &&& text_fits(c.earth)
    &&& text_fits(c.water)
    &&& text_fits(c.wind)
    &&& text_fits(c.ice)
    &&& text_fits(c.lightning)
    &&& text_fits(c.light)
    &&& text_fits(c.dark)
}

/// How many bytes the byte form of a price record takes.
pub open spec fn price_len(p: Price) -> int {
    option_len(micros_of(p.ah)) + option_len(micros_of(p.npc)) + 4
}

proof fn lemma_price_at(b: Seq<u8>, pos: int, p: Price)
    ensures
        price_wire(p).len() == price_len(p),
        holds(b, pos, price_wire(p)) ==> price_read(b.skip(pos)) == Some((p, price_len(p))),
{
    reveal(price_read);
    reveal(price_wire);
    let w1 = option_wire(micros_of(p.ah));
    let w2 = option_wire(micros_of(p.npc));
    let w3 = u32_wire(choice_index(p.choice));
    lemma_option_at(b, pos, micros_of(p.ah));
    lemma_option_at(b, pos + w1.len(), micros_of(p.npc));
    lemma_u32_at(b, pos + w1.len() + w2.len(), choice_index(p.choice));
    if holds(b, pos, price_wire(p)) {
        lemma_holds_split(b, pos, w1 + w2, w3);
        lemma_holds_split(b, pos, w1, w2);
        assert(pos + price_len(p) <= b.len()) by {
            reveal(holds);
        }
        assert(0 <= pos) by {
            reveal(holds);
        }
        lemma_skip_skip(b, pos, w1.len() as int);
        lemma_skip_skip(b, pos, (w1.len() + w2.len()) as int);
        assert(amount_from(micros_of(p.ah)) == p.ah);
        assert(amount_from(micros_of(p.npc)) == p.npc);
    }
}

/// How many bytes the byte form of an item takes.
pub open spec fn item_len(i: ItemView) -> int {
    text_len(i.name) + text_len(i.id) + 12 + price_len(i.buy) + price_len(i.sell)
}

proof fn lemma_item_at(b: Seq<u8>, pos: int, i: ItemView)
    requires
        item_fits(i),
    ensures
        item_wire(i).len() == item_len(i),
        item_len(i) > 0,
        holds(b, pos, item_wire(i)) ==> item_read(b.skip(pos)) == Some((i, item_len(i))),
{
    reveal(item_read);
    reveal(item_wire);
    let w1 = text_wire(i.name);
    let w2 = text_wire(i.id);
    let w3 = i64_wire(i.stack_size.micros);
    let w4 = i32_wire(i.quantity);
    let w5 = price_wire(i.buy);
    let w6 = price_wire(i.sell);
    let p1 = pos + text_len(i.name);
    let p2 = p1 + text_len(i.id);
    let p5 = p2 + 12 + price_len(i.buy);
    lemma_text_at(b, pos, i.name);
    lemma_text_at(b, p1, i.id);
    lemma_i64_at(b, p2, i.stack_size.micros);
    lemma_i32_at(b, p2 + 8, i.quantity);
    lemma_price_at(b, p2 + 12, i.buy);
    lemma_price_at(b, p5, i.sell);
    if holds(b, pos, item_wire(i)) {
        lemma_holds_split(b, pos, w1 + w2 + w3 + w4 + w5, w6);
        lemma_holds_split(b, pos, w1 + w2 + w3 + w4, w5);
        lemma_holds_split(b, pos, w1 + w2 + w3, w4);
        lemma_holds_split(b, pos, w1 + w2, w3);
        lemma_holds_split(b, pos, w1, w2);
        assert(0 <= pos && pos + item_len(i) <= b.len()) by {
            reveal(holds);
        }
        lemma_skip_skip(b, pos, p1 - pos);
        lemma_skip_skip(b, pos, p2 - pos);
        lemma_skip_skip(b, pos, p2 + 8 - pos);
        lemma_skip_skip(b, pos, p2 + 12 - pos);
        lemma_skip_skip(b, pos, p5 - pos);
    }
}

proof fn lemma_items_wire_front(items: Seq<ItemView>)
    requires
        items.len() > 0,
    ensures
        items_wire(items) == item_wire(items.first()) + items_wire(items.drop_first()),
    decreases items.len(),
{
    if items.len() == 1 {
        assert(items.drop_last() =~= Seq::<ItemView>::empty());
        assert(items.drop_first() =~= Seq::<ItemView>::empty());
        assert(items_wire(items) =~= item_wire(items.first()) + items_wire(items.drop_first()));
    } else {
        let front = items.drop_last();
        lemma_items_wire_front(front);
        assert(front.drop_first() =~= items.drop_first().drop_last());
        assert(front.first() == items.first());
        assert(items.drop_first().last() == items.last());
        assert(items_wire(items) =~= item_wire(items.first()) + items_wire(items.drop_first()));
    }
}

proof fn lemma_items_at(b: Seq<u8>, pos: int, items: Seq<ItemView>)
    requires
        items_fit(items),
        holds(b, pos, items_wire(items)),
    ensures
        items_read(b.skip(pos), items.len()) == Some((items, items_wire(items).len() as int)),
    decreases items.len(),
{
    if items.len() == 0 {
    } else {
        let first = items.first();
        let others = items.drop_first();
        lemma_items_wire_front(items);
        assert(item_fits(items[0]));
        lemma_item_at(b, pos, first);
        lemma_holds_split(b, pos, item_wire(first), items_wire(others));
        assert(items_fit(others)) by {
            assert forall|k: int| 0 <= k < others.len() implies item_fits(#[trigger] others[k]) by {
                assert(others[k] == items[k + 1]);
            }
        }
        lemma_items_at(b, pos + item_len(first), others);
        assert(0 <= pos && pos + item_len(first) <= b.len()) by {
            reveal(holds);
        }
        lemma_skip_skip(b, pos, item_len(first));
        assert(seq![first] + others =~= items);
    }
}

proof fn lemma_recipe_at(b: Seq<u8>, pos: int, r: RecipeView)
    requires
        recipe_fits(r),
        holds(b, pos, recipe_wire(r)),
    ensures
        recipe_read(b.skip(pos)) == Some((r, recipe_wire(r).len() as int)),
        recipe_wire(r).len() > 0,
{
    reveal(recipe_read);
    reveal(recipe_wire);
    let w1 = item_wire(r.item);
    let w2 = i64_wire(r.output_size.micros);
    let w3 = u64_wire(r.ingredients.len() as u64);
    let w4 = items_wire(r.ingredients);
    let w5 = item_wire(r.crystal);
    let w6 = i32_wire(r.level);
    let w7 = option_wire(micros_of(r.produce_cost));
    let p1 = pos + item_len(r.item);
    let p4 = p1 + 16 + w4.len();
    let p5 = p4 + item_len(r.crystal);
    lemma_holds_split(b, pos, w1 + w2 + w3 + w4 + w5 + w6, w7);
    lemma_holds_split(b, pos, w1 + w2 + w3 + w4 + w5, w6);
    lemma_holds_split(b, pos, w1 + w2 + w3 + w4, w5);
    lemma_holds_split(b, pos, w1 + w2 + w3, w4);
    lemma_holds_split(b, pos, w1 + w2, w3);
    lemma_holds_split(b, pos, w1, w2);
    lemma_item_at(b, pos, r.item);
    lemma_i64_at(b, p1, r.output_size.micros);
    lemma_u64_at(b, p1 + 8, r.ingredients.len() as u64);
    lemma_items_at(b, p1 + 16, r.ingredients);
    lemma_item_at(b, p4, r.crystal);
    lemma_i32_at(b, p5, r.level);
    lemma_option_at(b, p5 + 4, micros_of(r.produce_cost));
    assert(0 <= pos && pos + recipe_wire(r).len() <= b.len()) by {
        reveal(holds);
    }
    lemma_skip_skip(b, pos, p1 - pos);
    lemma_skip_skip(b, pos, p1 + 8 - pos);
    lemma_skip_skip(b, pos, p1 + 16 - pos);
    lemma_skip_skip(b, pos, p4 - pos);
    lemma_skip_skip(b, pos, p5 - pos);
    lemma_skip_skip(b, pos, p5 + 4 - pos);
    assert(amount_from(micros_of(r.produce_cost)) == r.produce_cost);
}

proof fn lemma_recipes_wire_front(recipes: Seq<RecipeView>)
    requires
        recipes.len() > 0,
    ensures
        recipes_wire(recipes) == recipe_wire(recipes.first()) + recipes_wire(recipes.drop_first()),
    decreases recipes.len(),
{
    if recipes.len() == 1 {
        assert(recipes.drop_last() =~= Seq::<RecipeView>::empty());
        assert(recipes.drop_first() =~= Seq::<RecipeView>::empty());
        assert(recipes_wire(recipes) =~= recipe_wire(recipes.first()) + recipes_wire(
            recipes.drop_first(),
        ));
    } else {
        let front = recipes.drop_last();
        lemma_recipes_wire_front(front);
        assert(front.drop_first() =~= recipes.drop_first().drop_last());
        assert(front.first() == recipes.first());
        assert(recipes.drop_first().last() == recipes.last());
        assert(recipes_wire(recipes) =~= recipe_wire(recipes.first()) + recipes_wire(
            recipes.drop_first(),
        ));
    }
}

proof fn lemma_recipes_at(b: Seq<u8>, pos: int, recipes: Seq<RecipeView>)
    requires
        forall|k: int| 0 <= k < recipes.len() ==> recipe_fits(#[trigger] recipes[k]),
        holds(b, pos, recipes_wire(recipes)),
    ensures
        recipes_read(b.skip(pos), recipes.len()) == Some(
            (recipes, recipes_wire(recipes).len() as int),
        ),
    decreases recipes.len(),
{
    if recipes.len() == 0 {
    } else {
        let first = recipes.first();
        let others = recipes.drop_first();
        lemma_recipes_wire_front(recipes);
        assert(recipe_fits(recipes[0]));
        lemma_holds_split(b, pos, recipe_wire(first), recipes_wire(others));
        lemma_recipe_at(b, pos, first);
        assert forall|k: int| 0 <= k < others.len() implies recipe_fits(#[trigger] others[k]) by {
            assert(others[k] == recipes[k + 1]);
        }
        let n = recipe_wire(first).len() as int;
        lemma_recipes_at(b, pos + n, others);
        assert(0 <= pos && pos + n <= b.len()) by {
            reveal(holds);
        }
        lemma_skip_skip(b, pos, n);
        assert(seq![first] + others =~= recipes);
    }
}

/// A catalogue that is written and read is the same catalogue, whatever
/// follows its bytes.
pub proof fn catalogue_round_trip(recipes: Seq<RecipeView>, rest: Seq<u8>)
    requires
        catalogue_fits(recipes),
    ensures
        catalogue_read(catalogue_wire(recipes) + rest) == Some(recipes),
{
    let all = catalogue_wire(recipes) + rest;
    let head = u64_wire(recipes.len() as u64);
    let body = recipes_wire(recipes);
    lemma_holds_front(catalogue_wire(recipes), rest);
    lemma_holds_split(all, 0, head, body);
    lemma_u64_at(all, 0, recipes.len() as u64);
    lemma_recipes_at(all, 8, recipes);
    assert(all.skip(0) =~= all);
}

proof fn lemma_texts_wire_front(texts: Seq<Seq<char>>)
    requires
        texts.len() > 0,
    ensures
        texts_wire(texts) == text_wire(texts.first()) + texts_wire(texts.drop_first()),
    decreases texts.len(),
{
    if texts.len() == 1 {
        assert(texts.drop_last() =~= Seq::<Seq<char>>::empty());
        assert(texts.drop_first() =~= Seq::<Seq<char>>::empty());
        assert(texts_wire(texts) =~= text_wire(texts.first()) + texts_wire(texts.drop_first()));
    } else {
        let front = texts.drop_last();
        lemma_texts_wire_front(front);
        assert(front.drop_first() =~= texts.drop_first().drop_last());
        assert(front.first() == texts.first());
        assert(texts.drop_first().last() == texts.last());
        assert(texts_wire(texts) =~= text_wire(texts.first()) + texts_wire(texts.drop_first()));
    }
}

proof fn lemma_texts_at(b: Seq<u8>, pos: int, texts: Seq<Seq<char>>)
    requires
        forall|k: int| 0 <= k < texts.len() ==> text_fits(#[trigger] texts[k]),
        holds(b, pos, texts_wire(texts)),
    ensures
        texts_read(b.skip(pos), texts.len()) == Some((texts, texts_wire(texts).len() as int)),
    decreases texts.len(),
{
    if texts.len() == 0 {
    } else {
        let first = texts.first();
        let others = texts.drop_first();
        lemma_texts_wire_front(texts);
        assert(text_fits(texts[0]));
        lemma_holds_split(b, pos, text_wire(first), texts_wire(others));
        lemma_text_at(b, pos, first);
        assert forall|k: int| 0 <= k < others.len() implies text_fits(#[trigger] others[k]) by {
            assert(others[k] == texts[k + 1]);
        }
        lemma_texts_at(b, pos + text_len(first), others);
        assert(0 <= pos && pos + text_len(first) <= b.len()) by {
            reveal(holds);
        }
        lemma_skip_skip(b, pos, text_len(first));
        assert(seq![first] + others =~= texts);
    }
}

/// A crystal price record that is written and read is the same record,
/// whatever follows its bytes.
pub proof fn crystals_round_trip(c: CrystalsView, rest: Seq<u8>)
    requires
        crystals_fit(c),
    ensures
        crystals_read(crystals_wire(c) + rest) == Some(c),
{
    let all = crystals_wire(c) + rest;
    lemma_holds_front(crystals_wire(c), rest);
    lemma_texts_at(all, 0, entries(c));
    assert(all.skip(0) =~= all);
}

} // verus!
