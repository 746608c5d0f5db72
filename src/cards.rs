//! The fixed catalog of colors and values, and the card identity type.
use vstd::prelude::*;

verus! {

/// A card color. The variant order is the catalog order used for enumeration.
#[derive(Clone, Copy, Debug, PartialEq, Eq, Structural, Hash, PartialOrd, Ord)]
pub enum Color {
    Blue,
    Green,
    Red,
    White,
    Yellow,
}

/// A card value; the catalog holds the values 1 to 5.
pub type Value = u32;

/// Position of a color in the catalog.
pub open spec fn color_index(c: Color) -> int {
    match c {
        Color::Blue => 0,
        Color::Green => 1,
        Color::Red => 2,
        Color::White => 3,
        Color::Yellow => 4,
    }
}

/// All colors, in catalog order.
pub open spec fn all_colors() -> Seq<Color> {
    seq![Color::Blue, Color::Green, Color::Red, Color::White, Color::Yellow]
}

/// All values, in catalog order.
pub open spec fn all_values() -> Seq<Value> {
    seq![1u32, 2u32, 3u32, 4u32, 5u32]
}

/// Whether `v` is a value of the catalog.
pub open spec fn is_value(v: Value) -> bool {
    1 <= v <= 5
}

/// Number of physical copies in the deck of each card with value `v`.
pub open spec fn copies_of(v: Value) -> u32 {
    if v == 1 {
        3
    } else if v == 5 {
        1
    } else if 2 <= v <= 4 {
        2
    } else {
        0
    }
}

/// The letter that stands for a color in text.
pub open spec fn color_char(c: Color) -> char {
    match c {
        Color::Blue => 'B',
        Color::Green => 'G',
        Color::Red => 'R',
        Color::White => 'W',
        Color::Yellow => 'Y',
    }
}

/// The digit that stands for a catalog value in text.
pub open spec fn value_char(v: Value) -> char {
    if v == 1 {
        '1'
    } else if v == 2 {
        '2'
    } else if v == 3 {
        '3'
    } else if v == 4 {
        '4'
    } else {
        '5'
    }
}

/// The colors of the catalog, in order.
pub fn colors() -> (r: Vec<Color>)
    ensures
        r@ == all_colors(),
{
    let r = vec![Color::Blue, Color::Green, Color::Red, Color::White, Color::Yellow];
    assert(r@ =~= all_colors());
    r
}

/// The values of the catalog, in order.
pub fn values() -> (r: Vec<Value>)
    ensures
        r@ == all_values(),
{
    let r = vec![1u32, 2u32, 3u32, 4u32, 5u32];
    assert(r@ =~= all_values());
    r
}

/// How many copies of each card of value `value` the deck holds.
pub fn get_count_for_value(value: &Value) -> (r: u32)
    requires
        is_value(*value),
    ensures
        r == copies_of(*value),
{
    if *value == 1 {
        3
    } else if *value == 5 {
        1
    } else {
        2
    }
}

/// The letter of a color, as a one-character string.
pub fn display_color(color: &Color) -> (r: &'static str)
    ensures
        r@ == seq![color_char(*color)],
{
    match color {
        Color::Blue => {
            proof { reveal_strlit("B"); }
            "B"
        },
        Color::Green => {
            proof { reveal_strlit("G"); }
            "G"
        },
        Color::Red => {
            proof { reveal_strlit("R"); }
            "R"
        },
        Color::White => {
            proof { reveal_strlit("W"); }
            "W"
        },
        Color::Yellow => {
            proof { reveal_strlit("Y"); }
            "Y"
        },
    }
}

/// The digit of a catalog value, as a one-character string.
pub fn display_value(value: &Value) -> (r: &'static str)
    requires
        is_value(*value),
    ensures
        r@ == seq![value_char(*value)],
{
    if *value == 1 {
        proof { reveal_strlit("1"); }
        "1"
    } else if *value == 2 {
        proof { reveal_strlit("2"); }
        "2"
    } else if *value == 3 {
        proof { reveal_strlit("3"); }
        "3"
    } else if *value == 4 {
        proof { reveal_strlit("4"); }
        "4"
    } else {
        proof { reveal_strlit("5"); }
        "5"
    }
}

/// A card: an immutable color and value. Cards order by color, then by value.
#[derive(Clone, Copy, Debug, PartialEq, Eq, Structural, Hash, PartialOrd, Ord)]
pub struct Card {
    pub color: Color,
    pub value: Value,
}

/// Whether a card belongs to the catalog.
pub open spec fn is_card(c: Card) -> bool {
    is_value(c.value)
}

/// Position of a catalog card in catalog order (color first, then value).
pub open spec fn card_index(c: Card) -> int {
    color_index(c.color) * 5 + (c.value - 1)
}

/// Every card of the catalog, in catalog order: colors times values.
pub open spec fn all_cards() -> Seq<Card> {
    Seq::new(25, |i: int| Card { color: all_colors()[i / 5], value: all_values()[i % 5] })
}

/// Text of a catalog card: its color letter followed by its value digit.
pub open spec fn card_text(c: Card) -> Seq<char> {
    seq![color_char(c.color), value_char(c.value)]
}

impl Card {
    pub fn new(color: Color, value: Value) -> (r: Card)
        ensures
            r == (Card { color, value }),
    {
        Card { color, value }
    }

    /// The card as text, such as `R3`.
    pub fn to_string(&self) -> (r: String)
        requires
            is_card(*self),
        ensures
            r@ == card_text(*self),
    {
        let mut s = String::new();
        s.append(display_color(&self.color));
        s.append(display_value(&self.value));
        assert(s@ =~= card_text(*self));
        s
    }
}

/// The catalog position of a card is in range and names that card.
pub proof fn lemma_card_index(c: Card)
    requires
        is_card(c),
    ensures
        0 <= card_index(c) < 25,
        all_cards()[card_index(c)] == c,
{
    assert(all_colors()[color_index(c.color)] == c.color);
    assert(all_values()[c.value - 1] == c.value);
}

/// The catalog lists each color at its own position.
pub proof fn lemma_colors_indexed()
    ensures
        all_colors().len() == 5,
        forall|i: int| 0 <= i < 5 ==> #[trigger] color_index(all_colors()[i]) == i,
        forall|c: Color| 0 <= #[trigger] color_index(c) < 5,
{
    assert(color_index(all_colors()[0]) == 0);
    assert(color_index(all_colors()[1]) == 1);
    assert(color_index(all_colors()[2]) == 2);
    assert(color_index(all_colors()[3]) == 3);
    assert(color_index(all_colors()[4]) == 4);
}

/// The catalog lists the values 1 to 5 in order.
pub proof fn lemma_values_indexed()
    ensures
        all_values().len() == 5,
        forall|i: int| 0 <= i < 5 ==> #[trigger] all_values()[i] == i + 1,
{
    assert(all_values()[0] == 1);
    assert(all_values()[1] == 2);
    assert(all_values()[2] == 3);
    assert(all_values()[3] == 4);
    assert(all_values()[4] == 5);
}

/// Each entry of the catalog is a catalog card at its own position, and each catalog
/// card sits at its position.
pub proof fn lemma_all_cards()
    ensures
        all_cards().len() == 25,
        forall|i: int|
            0 <= i < 25 ==> is_card(#[trigger] all_cards()[i]) && card_index(all_cards()[i]) == i,
        forall|c: Card|
            is_card(c) ==> 0 <= #[trigger] card_index(c) < 25 && all_cards()[card_index(c)] == c,
        forall|a: Card, b: Card|
            is_card(a) && is_card(b) && #[trigger] card_index(a) == #[trigger] card_index(b) ==> a == b,
{
    lemma_colors_indexed();
    lemma_values_indexed();
    assert forall|i: int| 0 <= i < 25 implies is_card(#[trigger] all_cards()[i]) && card_index(
        all_cards()[i],
    ) == i by {
        assert(color_index(all_colors()[i / 5]) == i / 5);
        assert(all_values()[i % 5] == i % 5 + 1);
    }
    assert forall|c: Card| is_card(c) implies 0 <= #[trigger] card_index(c) < 25 && all_cards()[card_index(c)] == c by {
        lemma_card_index(c);
    }
}

/// Every catalog card, in catalog order.
pub fn all_card_list() -> (r: Vec<Card>)
    ensures
        r@ == all_cards(),
{
    let cs = colors();
    let vs = values();
    let mut r: Vec<Card> = Vec::new();
    let mut ci: usize = 0;
    proof {
        lemma_all_cards();
    }
    while ci < 5
        invariant
            ci <= 5,
            cs@ == all_colors(),
            vs@ == all_values(),
            r@.len() == ci * 5,
            forall|k: int| 0 <= k < r@.len() ==> #[trigger] r@[k] == all_cards()[k],
        decreases 5 - ci,
    {
        let mut vi: usize = 0;
        while vi < 5
            invariant
                ci < 5,
                vi <= 5,
                cs@ == all_colors(),
                vs@ == all_values(),
                r@.len() == ci * 5 + vi,
                forall|k: int| 0 <= k < r@.len() ==> #[trigger] r@[k] == all_cards()[k],
            decreases 5 - vi,
        {
            assert((ci * 5 + vi) as int / 5 == ci as int);
            assert((ci * 5 + vi) as int % 5 == vi as int);
            r.push(Card::new(cs[ci], vs[vi]));
            vi = vi + 1;
        }
        ci = ci + 1;
    }
    assert(r@ =~= all_cards());
    r
}

pub fn color_index_of(c: &Color) -> (r: usize)
    ensures
        r == color_index(*c),
        r < 5,
{
    match c {
        Color::Blue => 0,
        Color::Green => 1,
        Color::Red => 2,
        Color::White => 3,
        Color::Yellow => 4,
    }
}

/// Catalog position of a catalog card.
pub fn card_index_of(c: &Card) -> (r: usize)
    requires
        is_card(*c),
    ensures
        r == card_index(*c),
        r < 25,
{
    color_index_of(&c.color) * 5 + (c.value - 1) as usize
}

} // verus!
