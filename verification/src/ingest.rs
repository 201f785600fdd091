//! Ingestion: building recipes and items from rows of the game's tables and
//! from the vendor lines of its zone scripts.

use vstd::prelude::*;
use crate::amount::{clamp, Amount, SCALE};
use crate::decimal::{
    all_digits, amount_from_chars, digit_of, digits_number, digits_value, i32_from_chars,
    is_digit, lemma_digits_bound, text_i32, text_micros,
};
use crate::model::{item_views, Choice, Item, ItemView, Price, Recipe, RecipeView};
use crate::pricing::produce_cost_of;
use crate::text::{
    after_spaces, chars_of, contains_text, field, field_of, field_span, find_from, find_text,
    has_field, is_text, lemma_field_start_grows, same_chars, scan, skip_spaces, slice_of,
    small_text, stands_at, string_of, to_small, trim, trimmed,
};

verus! {

/// Why a row of a table could not be taken in.
#[derive(Clone, Copy, Debug, PartialEq, Eq, Structural)]
pub enum IngestError {
    /// The row lacks a field, or a field that must hold a number does not.
    Malformed,
    /// The row or the items handed in are not the ones asked for.
    Mismatch,
}

impl IngestError {
    /// What went wrong, in words.
    pub fn describe(&self) -> (text: String)
        ensures
            text@ == match *self {
                IngestError::Malformed => "malformed row"@,
                IngestError::Mismatch => "not the row or the items asked for"@,
            },
    {
        match self {
            IngestError::Malformed => "malformed row".to_string(),
            IngestError::Mismatch => "not the row or the items asked for".to_string(),
        }
    }
}

/// The field of a recipe row that holds the skill level.
pub const LEVEL_FIELD: usize = 10;

/// The field of a recipe row that holds the crystal's id.
pub const CRYSTAL_FIELD: usize = 11;

/// The first of the ingredient fields of a recipe row.
pub const FIRST_SLOT: usize = 13;

/// The number of ingredient fields of a recipe row.
pub const SLOTS: usize = 8;

/// The field of a recipe row that holds the id of the item produced.
pub const OUTPUT_FIELD: usize = 21;

/// The field of a recipe row that holds the output size.
pub const SIZE_FIELD: usize = 25;

/// The ids in the first `n` ingredient fields of a recipe row, up to the
/// first field that holds `0`.
pub open spec fn slots_until(row: Seq<char>, n: nat) -> Seq<Seq<char>>
    decreases n,
{
    if n == 0 {
        Seq::<Seq<char>>::empty()
    } else {
        let before = slots_until(row, (n - 1) as nat);
        let id = field(row, (FIRST_SLOT + n - 1) as nat);
        if before.len() < n - 1 || id == "0"@ {
            before
        } else {
            before.push(id)
        }
    }
}

/// The ingredient ids of a recipe row, one for each unit, in the order of
/// the row.
pub open spec fn slots(row: Seq<char>) -> Seq<Seq<char>> {
    slots_until(row, SLOTS as nat)
}

/// How often `id` occurs in `ids`.
pub open spec fn occurrences(ids: Seq<Seq<char>>, id: Seq<char>) -> nat
    decreases ids.len(),
{
    if ids.len() == 0 {
        0
    } else {
        occurrences(ids.drop_last(), id) + if ids.last() == id {
            1nat
        } else {
            0nat
        }
    }
}

/// The ids of `ids`, each once, in the order in which they first occur.
pub open spec fn first_seen(ids: Seq<Seq<char>>) -> Seq<Seq<char>>
    decreases ids.len(),
{
    if ids.len() == 0 {
        Seq::<Seq<char>>::empty()
    } else {
        let before = first_seen(ids.drop_last());
        if before.contains(ids.last()) {
            before
        } else {
            before.push(ids.last())
        }
    }
}

/// An ingredient of a recipe as the recipe table gives it.
#[derive(Clone, Debug, PartialEq, Eq)]
pub struct Portion {
    /// The id of the item.
    pub id: String,
    /// How many units of it one craft consumes.
    pub quantity: i32,
}

/// A portion with its id as a character sequence.
pub struct PortionView {
    pub id: Seq<char>,
    pub quantity: int,
}

impl View for Portion {
    type V = PortionView;

    open spec fn view(&self) -> PortionView {
        PortionView { id: self.id@, quantity: self.quantity as int }
    }
}

/// The portions that a run of ingredient ids stands for: every id once, in
/// the order of first occurrence, with the number of its occurrences.
pub open spec fn coalesced(ids: Seq<Seq<char>>) -> Seq<PortionView> {
    Seq::new(
        first_seen(ids).len(),
        |k: int|
            PortionView {
                id: first_seen(ids)[k],
                quantity: occurrences(ids, first_seen(ids)[k]) as int,
            },
    )
}

/// No id occurs more often than there are ids.
pub proof fn lemma_occurrences_bound(ids: Seq<Seq<char>>, id: Seq<char>)
    ensures
        occurrences(ids, id) <= ids.len(),
        (forall|t: int| 0 <= t < ids.len() ==> ids[t] != id) ==> occurrences(ids, id) == 0,
    decreases ids.len(),
{
    if ids.len() > 0 {
        lemma_occurrences_bound(ids.drop_last(), id);
        assert forall|t: int| 0 <= t < ids.drop_last().len() implies ids.drop_last()[t]
            == ids[t] by {}
        if forall|t: int| 0 <= t < ids.len() ==> ids[t] != id {
            assert forall|t: int| 0 <= t < ids.drop_last().len() implies ids.drop_last()[t]
                != id by {
                assert(ids.drop_last()[t] == ids[t]);
            }
            assert(ids.last() == ids[ids.len() - 1]);
        }
    }
}

/// Merging keeps every id, keeps none twice, and counts each as often as it
/// occurs: the merged portions hold every id of the row, pairwise different
/// ids, and for each the number of its occurrences, which is at least one.
pub proof fn merged_ids_are_counted(ids: Seq<Seq<char>>)
    ensures
        forall|t: int| 0 <= t < ids.len() ==> first_seen(ids).contains(#[trigger] ids[t]),
        forall|a: int, b: int|
            0 <= a < b < first_seen(ids).len() ==> #[trigger] first_seen(ids)[a]
                != #[trigger] first_seen(ids)[b],
        forall|k: int|
            0 <= k < first_seen(ids).len() ==> 1 <= occurrences(ids, #[trigger] first_seen(ids)[k])
                <= ids.len(),
        coalesced(ids).len() == first_seen(ids).len(),
        forall|k: int|
            0 <= k < coalesced(ids).len() ==> (#[trigger] coalesced(ids)[k]).quantity
                == occurrences(ids, coalesced(ids)[k].id),
    decreases ids.len(),
{
    if ids.len() > 0 {
        let front = ids.drop_last();
        let x = ids.last();
        let before = first_seen(front);
        merged_ids_are_counted(front);
        let now = first_seen(ids);
        assert forall|t: int| 0 <= t < ids.len() implies now.contains(#[trigger] ids[t]) by {
            if t < front.len() {
                assert(front[t] == ids[t]);
                assert(before.contains(front[t]));
                let w = choose|w: int| 0 <= w < before.len() && before[w] == front[t];
                assert(now[w] == ids[t]);
            } else {
                if before.contains(x) {
                } else {
                    assert(now[now.len() - 1] == x);
                }
            }
        }
        assert forall|k: int| 0 <= k < now.len() implies 1 <= occurrences(
            ids,
            #[trigger] now[k],
        ) <= ids.len() by {
            lemma_occurrences_bound(ids, now[k]);
            if k < before.len() {
                assert(now[k] == before[k]);
            }
        }
    }
}

/// What a recipe row says of its recipe.
#[derive(Clone, Debug, PartialEq, Eq)]
pub struct RecipePlan {
    /// The crafting skill required.
    pub level: i32,
    /// The id of the crystal.
    pub crystal_id: String,
    /// The id of the item produced.
    pub output_id: String,
    /// Units produced by one craft.
    pub output_size: Amount,
    /// The ingredients, merged.
    pub ingredients: Vec<Portion>,
}

/// A plan with its texts as character sequences.
pub struct PlanView {
    pub level: i32,
    pub crystal_id: Seq<char>,
    pub output_id: Seq<char>,
    pub output_size: Amount,
    pub ingredients: Seq<PortionView>,
}

/// The views of a sequence of portions.
pub open spec fn portion_views(portions: Seq<Portion>) -> Seq<PortionView> {
    Seq::new(portions.len(), |k: int| portions[k]@)
}

impl View for RecipePlan {
    type V = PlanView;

    open spec fn view(&self) -> PlanView {
        PlanView {
            level: self.level,
            crystal_id: self.crystal_id@,
            output_id: self.output_id@,
            output_size: self.output_size,
            ingredients: portion_views(self.ingredients@),
        }
    }
}

/// What a recipe row says of its recipe, if the row is well formed: it has
/// all its fields, its level is a whole number that is not negative, and
/// its output size is a number that is at least one.
pub open spec fn plan_of(row: Seq<char>) -> Option<PlanView> {
    if !has_field(row, SIZE_FIELD as nat) {
        None
    } else {
        match (
            text_i32(field(row, LEVEL_FIELD as nat)),
            text_micros(field(row, SIZE_FIELD as nat)),
        ) {
            (Some(level), Some(size)) => if level >= 0 && size >= SCALE {
                Some(
                    PlanView {
                        level: level as i32,
                        crystal_id: field(row, CRYSTAL_FIELD as nat),
                        output_id: field(row, OUTPUT_FIELD as nat),
                        output_size: Amount { micros: size as i64 },
                        ingredients: coalesced(slots(row)),
                    },
                )
            } else {
                None
            },
            _ => None,
        }
    }
}

proof fn lemma_slots_stop(row: Seq<char>, k: nat, n: nat)
    requires
        k < n,
        slots_until(row, k).len() < k || field(row, (FIRST_SLOT + k) as nat) == "0"@,
    ensures
        slots_until(row, n) == slots_until(row, k),
    decreases n,
{
    lemma_slots_length(row, k);
    if n == k + 1 {
    } else {
        lemma_slots_stop(row, k, (n - 1) as nat);
    }
}

/// The first `n` ingredient fields of a row name at most `n` units.
pub proof fn lemma_slots_length(row: Seq<char>, n: nat)
    ensures
        slots_until(row, n).len() <= n,
    decreases n,
{
    if n > 0 {
        lemma_slots_length(row, (n - 1) as nat);
    }
}

/// The views of a sequence of character vectors.
pub open spec fn texts(v: Seq<Vec<char>>) -> Seq<Seq<char>> {
    Seq::new(v.len(), |k: int| v[k]@)
}

fn position_of(ids: &Vec<Vec<char>>, id: &Vec<char>) -> (at: Option<usize>)
    ensures
        at matches Some(j) ==> j < ids.len() && ids[j as int]@ == id@,
        at is None ==> forall|j: int| 0 <= j < ids.len() ==> ids[j]@ != id@,
{
    let mut j: usize = 0;
    while j < ids.len()
        invariant
            j <= ids.len(),
            forall|m: int| 0 <= m < j ==> ids[m]@ != id@,
        decreases ids.len() - j,
    {
        if same_chars(&ids[j], id) {
            return Some(j);
        }
        j += 1;
    }
    None
}

/// Reads the ingredient fields of a recipe row and merges equal ids.
fn merge_slots(chars: &Vec<char>) -> (r: (Vec<Vec<char>>, Vec<i32>))
    requires
        has_field(chars@, SIZE_FIELD as nat),
    ensures
        texts(r.0@) == first_seen(slots(chars@)),
        r.1.len() == r.0.len(),
        forall|j: int|
            0 <= j < r.0.len() ==> r.1[j] == occurrences(slots(chars@), #[trigger] r.0[j]@),
{
    let mut ids: Vec<Vec<char>> = Vec::new();
    let mut counts: Vec<i32> = Vec::new();
    let ghost mut seen: Seq<Seq<char>> = Seq::empty();
    let mut k: usize = 0;
    let mut done: bool = false;
    assert(texts(ids@) =~= first_seen(seen));
    while k < SLOTS && !done
        invariant
            k <= SLOTS,
            has_field(chars@, SIZE_FIELD as nat),
            done ==> seen == slots(chars@),
            !done ==> seen == slots_until(chars@, k as nat) && seen.len() == k,
            seen.len() <= k,
            texts(ids@) == first_seen(seen),
            counts.len() == ids.len(),
            forall|j: int|
                0 <= j < ids.len() ==> counts[j] == occurrences(seen, #[trigger] ids[j]@),
        decreases SLOTS - k, if done { 0int } else { 1int },
    {
        proof {
            lemma_field_start_grows(chars@, (FIRST_SLOT + k) as nat, SIZE_FIELD as nat);
        }
        let id = field_of(chars, FIRST_SLOT + k).unwrap();
        if is_text(&id, "0") {
            proof {
                if k + 1 < SLOTS {
                    lemma_slots_stop(chars@, k as nat, SLOTS as nat);
                }
                assert(slots_until(chars@, (k + 1) as nat) == seen);
            }
            done = true;
        } else {
            proof {
                let next = seen.push(id@);
                assert(next.drop_last() =~= seen);
                assert(next.last() == id@);
                assert(slots_until(chars@, (k + 1) as nat) == next);
                merged_ids_are_counted(seen);
                assert forall|j: int| 0 <= j < ids.len() implies occurrences(
                    next,
                    #[trigger] ids[j]@,
                ) == occurrences(seen, ids[j]@) + if ids[j]@ == id@ {
                    1nat
                } else {
                    0nat
                } by {}
                lemma_occurrences_bound(seen, id@);
            }
            match position_of(&ids, &id) {
                Some(j) => {
                    proof {
                        assert(texts(ids@)[j as int] == id@);
                        assert(first_seen(seen).contains(id@));
                        lemma_occurrences_bound(seen, id@);
                        assert forall|m: int| 0 <= m < ids.len() && m != j implies ids[m]@
                            != id@ by {
                            assert(texts(ids@)[m] == ids[m]@);
                        }
                    }
                    let bumped: i32 = counts[j] + 1;
                    counts.set(j, bumped);
                },
                None => {
                    proof {
                        assert forall|w: int| 0 <= w < first_seen(seen).len() implies first_seen(
                            seen,
                        )[w] != id@ by {
                            assert(texts(ids@)[w] == ids[w]@);
                        }
                        assert(!first_seen(seen).contains(id@));
                        assert forall|t: int| 0 <= t < seen.len() implies seen[t] != id@ by {
                            assert(first_seen(seen).contains(seen[t]));
                        }
                    }
                    ids.push(id);
                    counts.push(1);
                },
            }
            proof {
                seen = seen.push(id@);
                assert(texts(ids@) =~= first_seen(seen));
            }
        }
        k += 1;
    }
    (ids, counts)
}

/// Reads a row of the recipe table: the level, the ids of the crystal and of
/// the item produced, the output size, and the ingredient ids up to the
/// first `0`, equal ids merged into one portion.
pub fn parse_recipe_row(row: &str) -> (r: Result<RecipePlan, IngestError>)
    ensures
        match plan_of(row@) {
            Some(plan) => r is Ok && r->Ok_0@ == plan,
            None => r == Err::<RecipePlan, IngestError>(IngestError::Malformed),
        },
{
    let chars = chars_of(row);
    if field_span(&chars, SIZE_FIELD).is_none() {
        return Err(IngestError::Malformed);
    }
    proof {
        lemma_field_start_grows(chars@, LEVEL_FIELD as nat, SIZE_FIELD as nat);
        lemma_field_start_grows(chars@, CRYSTAL_FIELD as nat, SIZE_FIELD as nat);
        lemma_field_start_grows(chars@, OUTPUT_FIELD as nat, SIZE_FIELD as nat);
    }
    let level_text = field_of(&chars, LEVEL_FIELD).unwrap();
    let size_text = field_of(&chars, SIZE_FIELD).unwrap();
    let level: i32 = match i32_from_chars(&level_text) {
        Some(v) => v,
        None => {
            return Err(IngestError::Malformed);
        },
    };
    let output_size = match amount_from_chars(&size_text) {
        Some(a) => a,
        None => {
            return Err(IngestError::Malformed);
        },
    };
    if level < 0 || output_size.micros < SCALE {
        return Err(IngestError::Malformed);
    }
    let crystal = field_of(&chars, CRYSTAL_FIELD).unwrap();
    let output = field_of(&chars, OUTPUT_FIELD).unwrap();
    let (ids, counts) = merge_slots(&chars);
    let mut ingredients: Vec<Portion> = Vec::new();
    let mut j: usize = 0;
    while j < ids.len()
        invariant
            j <= ids.len(),
            counts.len() == ids.len(),
            ingredients.len() == j,
            texts(ids@) == first_seen(slots(chars@)),
            forall|m: int|
                0 <= m < ids.len() ==> counts[m] == occurrences(slots(chars@), #[trigger] ids[m]@),
            forall|m: int|
                0 <= m < j ==> (#[trigger] ingredients[m])@ == coalesced(slots(chars@))[m],
        decreases ids.len() - j,
    {
        assert(texts(ids@)[j as int] == ids[j as int]@);
        ingredients.push(Portion { id: string_of(&ids[j]), quantity: counts[j] });
        j += 1;
    }
    let plan = RecipePlan {
        level,
        crystal_id: string_of(&crystal),
        output_id: string_of(&output),
        output_size,
        ingredients,
    };
    assert(plan@.ingredients =~= coalesced(slots(chars@)));
    Ok(plan)
}

/// The field of an item row that holds the id, after an opening bracket.
pub const ID_FIELD: usize = 0;

/// The field of an item row that holds the name, in quotes.
pub const NAME_FIELD: usize = 3;

/// The field of an item row that holds the stack size.
pub const STACK_FIELD: usize = 4;

/// The field of an item row that holds the vendor's buying price and the
/// end of the row.
pub const SELL_FIELD: usize = 8;

/// The id that an item row carries: what follows the first opening bracket
/// of its first field.
pub open spec fn row_id(row: Seq<char>) -> Seq<char> {
    let head = field(row, ID_FIELD as nat);
    head.skip(scan(head, '(', 0) + 1)
}

/// Whether `s` ends with a closing bracket and a semicolon.
pub open spec fn ends_row(s: Seq<char>) -> bool {
    s.len() >= 2 && s[s.len() - 2] == ')' && s[s.len() - 1] == ';'
}

/// Whether an item row is well formed: it has all its fields, an opening
/// bracket in the first, a name of at least two characters, and a stack
/// size that is a number and at least one.
pub open spec fn item_row_ok(row: Seq<char>) -> bool {
    &&& has_field(row, SELL_FIELD as nat)
    &&& scan(field(row, ID_FIELD as nat), '(', 0) < field(row, ID_FIELD as nat).len()
    &&& field(row, NAME_FIELD as nat).len() >= 2
    &&& text_micros(field(row, STACK_FIELD as nat)) matches Some(stack) && stack >= SCALE
}

/// The text of the vendor's buying price in the last field of an item row:
/// the field without the blanks around it and without the closing bracket
/// and semicolon that end the row, where it ends with them.
pub open spec fn sell_text(last: Seq<char>) -> Seq<char> {
    let tail = trimmed(last);
    if ends_row(tail) {
        tail.take(tail.len() - 2)
    } else {
        tail
    }
}

/// An amount of that many millionths, if there is a number.
pub open spec fn amount_of(micros: Option<int>) -> Option<Amount> {
    match micros {
        Some(m) => Some(Amount { micros: m as i64 }),
        None => None,
    }
}

/// The item that a well-formed item row describes, with `buy_npc` as the
/// vendor's selling price: the name field without its first and its last
/// character, which are its quotes, the id, the stack size, and the
/// vendor's buying price where the row holds a number for it; where it
/// holds none, the item has no such price.
pub open spec fn item_of_row(row: Seq<char>, buy_npc: Option<Amount>) -> ItemView {
    let name = field(row, NAME_FIELD as nat);
    ItemView {
        name: name.subrange(1, name.len() - 1),
        id: row_id(row),
        stack_size: Amount { micros: text_micros(field(row, STACK_FIELD as nat))->0 as i64 },
        quantity: 1,
        buy: Price { ah: None, npc: buy_npc, choice: Choice::NPC },
        sell: Price {
            ah: None,
            npc: amount_of(text_micros(sell_text(field(row, SELL_FIELD as nat)))),
            choice: Choice::NPC,
        },
    }
}

/// The first position at or after `i` where `s` holds no digit.
pub open spec fn skip_digits(s: Seq<char>, i: int) -> int
    decreases s.len() - i,
{
    if i < 0 || i >= s.len() || !is_digit(s[i]) {
        i
    } else {
        skip_digits(s, i + 1)
    }
}

/// Whether two dashes in a row stand in `s` at or after `from`.
pub open spec fn has_dashes(s: Seq<char>, from: int) -> bool {
    exists|k: int| from <= k && k + 1 < s.len() && s[k] == '-' && #[trigger] s[k + 1] == '-'
}

/// The price that a line of a zone script quotes for the item `id`, in
/// millionths: the line holds, after any blanks, the id, a comma, any
/// blanks, a run of digits, which is the price in whole units, a comma, and
/// somewhere after that two dashes. `None` for any other line.
pub open spec fn vendor_price(line: Seq<char>, id: Seq<char>) -> Option<Amount> {
    let a = skip_spaces(line, 0);
    let b = a + id.len();
    if b < line.len() && line.subrange(a, b) == id && line[b] == ',' {
        let c = skip_spaces(line, b + 1);
        let d = skip_digits(line, c);
        if c < d && d < line.len() && line[d] == ',' && has_dashes(line, d + 1) {
            Some(Amount { micros: clamp(digits_value(line.subrange(c, d)) * SCALE) as i64 })
        } else {
            None
        }
    } else {
        None
    }
}

/// The smaller of two prices; a price that is not there does not count.
pub open spec fn cheaper(a: Option<Amount>, b: Option<Amount>) -> Option<Amount> {
    match (a, b) {
        (None, _) => b,
        (_, None) => a,
        (Some(x), Some(y)) => if y.micros < x.micros {
            b
        } else {
            a
        },
    }
}

/// The lowest price that any of the lines quotes for the item `id`; none if
/// no line quotes one.
pub open spec fn cheapest(lines: Seq<Seq<char>>, id: Seq<char>) -> Option<Amount>
    decreases lines.len(),
{
    if lines.len() == 0 {
        None
    } else {
        cheaper(cheapest(lines.drop_last(), id), vendor_price(lines.last(), id))
    }
}

/// The lowest quoted price is quoted by one of the lines and no line quotes
/// a lower one; there is none exactly when no line quotes a price.
pub proof fn cheapest_is_minimum(lines: Seq<Seq<char>>, id: Seq<char>)
    ensures
        cheapest(lines, id) matches Some(m) ==> {
            &&& exists|k: int|
                0 <= k < lines.len() && vendor_price(#[trigger] lines[k], id) == Some(m)
            &&& forall|k: int|
                0 <= k < lines.len() ==> (vendor_price(#[trigger] lines[k], id) matches Some(p)
                    ==> m.micros <= p.micros)
        },
        cheapest(lines, id) is None ==> forall|k: int|
            0 <= k < lines.len() ==> vendor_price(#[trigger] lines[k], id) is None,
    decreases lines.len(),
{
    if lines.len() > 0 {
        let front = lines.drop_last();
        cheapest_is_minimum(front, id);
        assert forall|k: int| 0 <= k < front.len() implies front[k] == lines[k] by {}
        let last = lines.len() - 1;
        match cheapest(lines, id) {
            Some(m) => {
                if cheapest(front, id) == Some(m) {
                    let w = choose|k: int|
                        0 <= k < front.len() && vendor_price(#[trigger] front[k], id) == Some(m);
                    assert(vendor_price(lines[w], id) == Some(m));
                } else {
                    assert(vendor_price(lines[last], id) == Some(m));
                }
                assert forall|k: int| 0 <= k < lines.len() implies (vendor_price(
                    #[trigger] lines[k],
                    id,
                ) matches Some(p) ==> m.micros <= p.micros) by {
                    if k < front.len() {
                        assert(front[k] == lines[k]);
                    }
                }
            },
            None => {
                assert forall|k: int| 0 <= k < lines.len() implies vendor_price(
                    #[trigger] lines[k],
                    id,
                ) is None by {
                    if k < front.len() {
                        assert(front[k] == lines[k]);
                    }
                }
            },
        }
    }
}

fn after_digits(chars: &Vec<char>, from: usize) -> (at: usize)
    requires
        from <= chars.len(),
    ensures
        at == skip_digits(chars@, from as int),
        from <= at <= chars.len(),
        all_digits(chars@.subrange(from as int, at as int)),
{
    let mut at: usize = from;
    while at < chars.len() && digit_of(chars[at]).is_some()
        invariant
            from <= at <= chars.len(),
            skip_digits(chars@, from as int) == skip_digits(chars@, at as int),
            forall|j: int| from <= j < at ==> is_digit(chars@[j]),
        decreases chars.len() - at,
    {
        at += 1;
    }
    assert forall|j: int| 0 <= j < at - from implies is_digit(
        #[trigger] chars@.subrange(from as int, at as int)[j],
    ) by {
        assert(chars@.subrange(from as int, at as int)[j] == chars@[from + j]);
    }
    at
}

fn dashes_after(chars: &Vec<char>, from: usize) -> (found: bool)
    requires
        from <= chars.len(),
    ensures
        found == has_dashes(chars@, from as int),
{
    if chars.len() < 2 || from >= chars.len() - 1 {
        return false;
    }
    let last: usize = chars.len() - 1;
    let mut k: usize = from;
    while k < last
        invariant
            from <= k <= last,
            last == chars.len() - 1,
            forall|j: int|
                from <= j < k ==> !(chars@[j] == '-' && #[trigger] chars@[j + 1] == '-'),
        decreases last - k,
    {
        if chars[k] == '-' && chars[k + 1] == '-' {
            return true;
        }
        k += 1;
    }
    false
}

/// The price that a line of a zone script quotes for the item `id`, if it
/// quotes one.
pub fn vendor_price_of(line: &Vec<char>, id: &Vec<char>) -> (price: Option<Amount>)
    ensures
        price == vendor_price(line@, id@),
{
    let a = after_spaces(line, 0);
    if id.len() >= line.len() - a {
        return None;
    }
    let b: usize = a + id.len();
    if !stands_at(line, id, a) || line[b] != ',' {
        return None;
    }
    let c = after_spaces(line, b + 1);
    let d = after_digits(line, c);
    if c == d || d == line.len() || line[d] != ',' || !dashes_after(line, d + 1) {
        return None;
    }
    proof {
        lemma_digits_bound(line@.subrange(c as int, d as int));
    }
    let units: u128 = digits_number(line, c, d);
    if units > 9_223_372_036_854 {
        Some(Amount { micros: i64::MAX })
    } else {
        Some(Amount { micros: (units * 1_000_000) as i64 })
    }
}

/// The views of a sequence of strings.
pub open spec fn line_texts(lines: Seq<String>) -> Seq<Seq<char>> {
    Seq::new(lines.len(), |k: int| lines[k]@)
}

/// The lowest price that any of the lines quotes for the item `id`.
pub fn cheapest_price(lines: &Vec<String>, id: &Vec<char>) -> (price: Option<Amount>)
    ensures
        price == cheapest(line_texts(lines@), id@),
{
    let mut best: Option<Amount> = None;
    let mut k: usize = 0;
    assert(line_texts(lines@).take(0) =~= Seq::<Seq<char>>::empty());
    while k < lines.len()
        invariant
            k <= lines.len(),
            best == cheapest(line_texts(lines@).take(k as int), id@),
        decreases lines.len() - k,
    {
        let line = chars_of(lines[k].as_str());
        proof {
            let all = line_texts(lines@);
            assert(all.take(k + 1).drop_last() =~= all.take(k as int));
            assert(all.take(k + 1).last() == line@);
        }
        let quoted = vendor_price_of(&line, id);
        best = match (best, quoted) {
            (None, _) => quoted,
            (_, None) => best,
            (Some(x), Some(y)) => if y.micros < x.micros {
                quoted
            } else {
                best
            },
        };
        k += 1;
    }
    assert(line_texts(lines@).take(k as int) =~= line_texts(lines@));
    best
}

impl Item {
    /// Builds the item `id` from its row of the item table and from the
    /// lines of the zone scripts, of which the lowest price quoted for the
    /// item becomes the vendor's selling price. The item counts once and is
    /// priced at the vendor on both sides.
    pub fn from_id(id: &str, row: &str, vendor_lines: &Vec<String>) -> (r: Result<
        Item,
        IngestError,
    >)
        ensures
            !item_row_ok(row@) ==> r == Err::<Item, IngestError>(IngestError::Malformed),
            item_row_ok(row@) && row_id(row@) != id@ ==> r == Err::<Item, IngestError>(
                IngestError::Mismatch,
            ),
            item_row_ok(row@) && row_id(row@) == id@ ==> r is Ok && r->Ok_0@ == item_of_row(
                row@,
                cheapest(line_texts(vendor_lines@), id@),
            ) && r->Ok_0@.wf(),
    {
        let chars = chars_of(row);
        if field_span(&chars, SELL_FIELD).is_none() {
            return Err(IngestError::Malformed);
        }
        proof {
            lemma_field_start_grows(chars@, ID_FIELD as nat, SELL_FIELD as nat);
            lemma_field_start_grows(chars@, NAME_FIELD as nat, SELL_FIELD as nat);
            lemma_field_start_grows(chars@, STACK_FIELD as nat, SELL_FIELD as nat);
        }
        let head = field_of(&chars, ID_FIELD).unwrap();
        let open = find_from(&head, '(', 0);
        if open == head.len() {
            return Err(IngestError::Malformed);
        }
        let quoted = field_of(&chars, NAME_FIELD).unwrap();
        if quoted.len() < 2 {
            return Err(IngestError::Malformed);
        }
        let stack_text = field_of(&chars, STACK_FIELD).unwrap();
        let stack_size = match amount_from_chars(&stack_text) {
            Some(a) => a,
            None => {
                return Err(IngestError::Malformed);
            },
        };
        if stack_size.micros < SCALE {
            return Err(IngestError::Malformed);
        }
        let last = field_of(&chars, SELL_FIELD).unwrap();
        let tail = trim(&last);
        let ended: bool = tail.len() >= 2 && tail[tail.len() - 2] == ')' && tail[tail.len() - 1]
            == ';';
        let price_end: usize = if ended {
            tail.len() - 2
        } else {
            tail.len()
        };
        let row_id = slice_of(&head, open + 1, head.len());
        assert(row_id@ =~= head@.skip(open + 1));
        let wanted = chars_of(id);
        if !same_chars(&row_id, &wanted) {
            return Err(IngestError::Mismatch);
        }
        let name = slice_of(&quoted, 1, quoted.len() - 1);
        let sell_text = slice_of(&tail, 0, price_end);
        assert(sell_text@ =~= tail@.take(price_end as int));
        assert(tail@.take(tail.len() as int) =~= tail@);
        let item = Item {
            name: string_of(&name),
            id: string_of(&row_id),
            stack_size,
            quantity: 1,
            buy: Price::vendor(cheapest_price(vendor_lines, &wanted)),
            sell: Price::vendor(amount_from_chars(&sell_text)),
        };
        Ok(item)
    }
}

/// Whether a line of the item table is the row of the item `id`: its first
/// field holds an opening bracket and after it the id, and another field
/// follows.
pub open spec fn is_item_row(line: Seq<char>, id: Seq<char>) -> bool {
    &&& has_field(line, 1)
    &&& scan(field(line, ID_FIELD as nat), '(', 0) < field(line, ID_FIELD as nat).len()
    &&& row_id(line) == id
}

/// Whether a line of the item table is the row of the item `id`.
pub fn item_row_matches(line: &str, id: &str) -> (b: bool)
    ensures
        b == is_item_row(line@, id@),
{
    let chars = chars_of(line);
    if field_span(&chars, 1).is_none() {
        return false;
    }
    proof {
        lemma_field_start_grows(chars@, ID_FIELD as nat, 1);
    }
    let head = field_of(&chars, ID_FIELD).unwrap();
    let open = find_from(&head, '(', 0);
    if open == head.len() {
        return false;
    }
    let found = slice_of(&head, open + 1, head.len());
    assert(found@ =~= head@.skip(open + 1));
    is_text(&found, id)
}

/// Where the last comma-separated field of `s` begins: after the last
/// comma, or at the start when there is none.
pub open spec fn last_field_start(s: Seq<char>) -> int
    decreases s.len(),
{
    if s.len() == 0 {
        0
    } else if s.last() == ',' {
        s.len() as int
    } else {
        last_field_start(s.drop_last())
    }
}

/// The last comma-separated field of `s`, which in a row of the recipe
/// table holds the name of the recipe.
pub open spec fn last_field(s: Seq<char>) -> Seq<char> {
    s.skip(last_field_start(s))
}

/// Whether a line of the recipe table is the row of the recipe `name`: its
/// last field mentions the name, in whatever case the letters A to Z are
/// written.
pub open spec fn is_recipe_row(line: Seq<char>, name: Seq<char>) -> bool {
    contains_text(small_text(last_field(line)), small_text(name))
}

/// Whether a line of the recipe table is the row of the recipe `name`.
pub fn recipe_row_matches(line: &str, name: &str) -> (b: bool)
    ensures
        b == is_recipe_row(line@, name@),
{
    let chars = chars_of(line);
    let mut start: usize = chars.len();
    assert(chars@.take(start as int) =~= chars@);
    while start > 0 && chars[start - 1] != ','
        invariant
            start <= chars.len(),
            last_field_start(chars@) == last_field_start(chars@.take(start as int)),
        decreases start,
    {
        assert(chars@.take(start as int).drop_last() =~= chars@.take(start - 1));
        start -= 1;
    }
    let column = slice_of(&chars, start, chars.len());
    assert(column@ =~= last_field(chars@));
    let hay = to_small(&column);
    let needle = to_small(&chars_of(name));
    find_text(&hay, &needle)
}

/// The items with the quantities of the portions, in the same order.
pub open spec fn portioned(items: Seq<ItemView>, portions: Seq<PortionView>) -> Seq<ItemView> {
    Seq::new(
        items.len(),
        |k: int| ItemView { quantity: portions[k].quantity as i32, ..items[k] },
    )
}

/// Whether the items are the ones that the plan asks for: the produced item,
/// the crystal and one item for every portion, in order, each well formed.
pub open spec fn answers(
    plan: PlanView,
    item: ItemView,
    crystal: ItemView,
    ingredients: Seq<ItemView>,
) -> bool {
    &&& item.id == plan.output_id
    &&& crystal.id == plan.crystal_id
    &&& ingredients.len() == plan.ingredients.len()
    &&& forall|k: int|
        0 <= k < ingredients.len() ==> (#[trigger] ingredients[k]).id == plan.ingredients[k].id
}

/// Whether a plan and the items for it make a recipe that keeps the
/// invariant of recipes.
pub open spec fn sound(
    plan: PlanView,
    item: ItemView,
    crystal: ItemView,
    ingredients: Seq<ItemView>,
) -> bool {
    &&& plan.level >= 0
    &&& plan.output_size.micros >= SCALE
    &&& item.wf()
    &&& crystal.wf()
    &&& forall|k: int|
        0 <= k < ingredients.len() ==> (#[trigger] ingredients[k]).stack_size.micros >= SCALE
    &&& forall|k: int|
        0 <= k < plan.ingredients.len() ==> 1 <= (#[trigger] plan.ingredients[k]).quantity
}

fn same_text(a: &String, b: &String) -> (same: bool)
    ensures
        same == (a@ == b@),
{
    let x = chars_of(a.as_str());
    let y = chars_of(b.as_str());
    same_chars(&x, &y)
}

fn well_formed(item: &Item) -> (ok: bool)
    ensures
        ok == item@.wf(),
{
    item.quantity >= 1 && item.stack_size.micros >= SCALE
}

impl Recipe {
    /// Puts a recipe together from the plan that its row gave and the items
    /// that the plan names. Every ingredient takes the quantity of its
    /// portion, and the cost of a craft is calculated with a crystal that
    /// costs nothing.
    pub fn new(plan: &RecipePlan, item: Item, crystal: Item, ingredients: Vec<Item>) -> (r: Result<
        Recipe,
        IngestError,
    >)
        ensures
            !answers(plan@, item@, crystal@, item_views(ingredients@)) ==> r == Err::<
                Recipe,
                IngestError,
            >(IngestError::Mismatch),
            answers(plan@, item@, crystal@, item_views(ingredients@)) && !sound(
                plan@,
                item@,
                crystal@,
                item_views(ingredients@),
            ) ==> r == Err::<Recipe, IngestError>(IngestError::Malformed),
            answers(plan@, item@, crystal@, item_views(ingredients@)) && sound(
                plan@,
                item@,
                crystal@,
                item_views(ingredients@),
            ) ==> r is Ok && r->Ok_0@ == (RecipeView {
                item: item@,
                output_size: plan.output_size,
                ingredients: portioned(item_views(ingredients@), plan@.ingredients),
                crystal: crystal@,
                level: plan.level,
                produce_cost: produce_cost_of(
                    portioned(item_views(ingredients@), plan@.ingredients),
                    0,
                ),
            }) && r->Ok_0@.wf(),
    {
        let ghost given = item_views(ingredients@);
        let ghost asked = plan@.ingredients;
        if !same_text(&item.id, &plan.output_id) || !same_text(&crystal.id, &plan.crystal_id)
            || ingredients.len() != plan.ingredients.len() {
            return Err(IngestError::Mismatch);
        }
        let mut k: usize = 0;
        while k < ingredients.len()
            invariant
                k <= ingredients.len(),
                ingredients.len() == plan.ingredients.len(),
                given == item_views(ingredients@),
                asked == plan@.ingredients,
                forall|j: int| 0 <= j < k ==> (#[trigger] given[j]).id == asked[j].id,
            decreases ingredients.len() - k,
        {
            assert(given[k as int] == ingredients[k as int]@);
            assert(asked[k as int] == plan.ingredients[k as int]@);
            if !same_text(&ingredients[k].id, &plan.ingredients[k].id) {
                return Err(IngestError::Mismatch);
            }
            k += 1;
        }
        assert(answers(plan@, item@, crystal@, given));
        if plan.level < 0 || plan.output_size.micros < SCALE || !well_formed(&item)
            || !well_formed(&crystal) {
            return Err(IngestError::Malformed);
        }
        let mut k: usize = 0;
        while k < ingredients.len()
            invariant
                k <= ingredients.len(),
                ingredients.len() == plan.ingredients.len(),
                given == item_views(ingredients@),
                asked == plan@.ingredients,
                answers(plan@, item@, crystal@, given),
                plan.level >= 0 && plan.output_size.micros >= SCALE && item@.wf() && crystal@.wf(),
                forall|j: int| 0 <= j < k ==> (#[trigger] given[j]).stack_size.micros >= SCALE,
                forall|j: int| 0 <= j < k ==> 1 <= (#[trigger] asked[j]).quantity,
            decreases ingredients.len() - k,
        {
            assert(given[k as int] == ingredients[k as int]@);
            assert(asked[k as int] == plan.ingredients[k as int]@);
            if ingredients[k].stack_size.micros < SCALE || plan.ingredients[k].quantity < 1 {
                return Err(IngestError::Malformed);
            }
            k += 1;
        }
        assert(sound(plan@, item@, crystal@, given));
        let mut counted: Vec<Item> = Vec::new();
        let mut rest = ingredients;
        let mut k: usize = 0;
        let total: usize = rest.len();
        let ghost handed = rest@;
        while k < total
            invariant
                k <= total,
                total == plan.ingredients.len(),
                rest@ == handed,
                handed.len() == total,
                given == item_views(handed),
                asked == plan@.ingredients,
                counted.len() == k,
                forall|j: int|
                    0 <= j < k ==> (#[trigger] counted[j])@ == portioned(given, asked)[j],
            decreases total - k,
        {
            assert(given[k as int] == rest[k as int]@);
            assert(asked[k as int] == plan.ingredients[k as int]@);
            let source = &rest[k];
            counted.push(
                Item {
                    name: source.name.clone(),
                    id: source.id.clone(),
                    stack_size: source.stack_size,
                    quantity: plan.ingredients[k].quantity,
                    buy: source.buy,
                    sell: source.sell,
                },
            );
            k += 1;
        }
        assert(item_views(counted@) =~= portioned(given, asked));
        let mut recipe = Recipe {
            item,
            output_size: plan.output_size,
            ingredients: counted,
            crystal,
            level: plan.level,
            produce_cost: None,
        };
        recipe.calculate_produce_cost(Amount::zero());
        Ok(recipe)
    }
}

} // verus!
