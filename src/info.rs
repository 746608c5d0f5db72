//! Possibility tracking for single attributes and for whole cards.
use vstd::prelude::*;

use crate::cards::{
    all_card_list, all_cards, all_colors, all_values, card_index, card_index_of, card_text,
    color_char, color_index, color_index_of, colors, copies_of, display_color, display_value,
    get_count_for_value, is_card, is_value, lemma_all_cards, lemma_colors_indexed,
    lemma_values_indexed, value_char, values, Card, Color, Value,
};

verus! {

/// A filter that keeps every element of a sequence leaves it unchanged.
pub proof fn lemma_filter_keeps_all<A>(s: Seq<A>, p: spec_fn(A) -> bool)
    requires
        forall|i: int| 0 <= i < s.len() ==> #[trigger] p(s[i]),
    ensures
        s.filter(p) == s,
    decreases s.len(),
{
    reveal(Seq::filter);
    if s.len() == 0 {
        assert(s.filter(p) =~= s);
    } else {
        lemma_filter_keeps_all(s.drop_last(), p);
        assert(p(s.last()));
        assert(s.drop_last().push(s.last()) =~= s);
    }
}

/// Knowledge about a hidden attribute of type `T`: the values still possible.
pub trait Info<T>: Sized {
    /// Every a-priori possible value, in catalog order.
    spec fn domain() -> Seq<T>;

    spec fn wf(&self) -> bool;

    /// The values still considered possible.
    spec fn possible_set(&self) -> Set<T>;

    fn get_all_possibilities() -> (r: Vec<T>)
        ensures
            r@ == Self::domain(),
    ;

    /// A tracker with nothing excluded yet.
    fn initialize() -> (r: Self)
        ensures
            r.wf(),
            r.possible_set() == Self::domain().to_set(),
    ;

    /// The possible values, in catalog order.
    fn get_possibilities(&self) -> (r: Vec<T>)
        requires
            self.wf(),
        ensures
            r@ == Self::domain().filter(|t: T| self.possible_set().contains(t)),
    ;

    fn is_possible(&self, value: &T) -> (r: bool)
        requires
            self.wf(),
        ensures
            r == self.possible_set().contains(*value),
    ;

    /// Narrows to exactly `value`, which must still be possible.
    fn mark_true(&mut self, value: &T)
        requires
            old(self).wf(),
            old(self).possible_set().contains(*value),
        ensures
            final(self).wf(),
            final(self).possible_set() == set![*value],
    ;

    /// Excludes `value`; nothing happens where it is already excluded.
    fn mark_false(&mut self, value: &T)
        requires
            old(self).wf(),
        ensures
            final(self).wf(),
            final(self).possible_set() == old(self).possible_set().remove(*value),
            final(self).possible_set().subset_of(old(self).possible_set()),
            !final(self).possible_set().contains(*value),
    ;

    fn mark(&mut self, value: &T, info: bool)
        requires
            old(self).wf(),
            info ==> old(self).possible_set().contains(*value),
        ensures
            final(self).wf(),
            info ==> final(self).possible_set() == set![*value],
            !info ==> final(self).possible_set() == old(self).possible_set().remove(*value),
    ;
}

/// Marking the same value false twice narrows exactly as marking it once.
pub proof fn lemma_mark_false_idempotent<T>(s: Set<T>, v: T)
    ensures
        s.remove(v).remove(v) == s.remove(v),
{
    assert(s.remove(v).remove(v) =~= s.remove(v));
}

/// One flag per catalog position, with only position `k` set.
fn only_flag(k: usize) -> (r: Vec<bool>)
    requires
        k < 5,
    ensures
        r@.len() == 5,
        forall|i: int| 0 <= i < 5 ==> #[trigger] r@[i] == (i == k),
{
    let mut r: Vec<bool> = Vec::new();
    let mut i: usize = 0;
    while i < 5
        invariant
            i <= 5,
            r@.len() == i,
            forall|j: int| 0 <= j < i ==> #[trigger] r@[j] == (j == k),
        decreases 5 - i,
    {
        r.push(i == k);
        i = i + 1;
    }
    r
}

/// Which colors are still possible for a card.
#[derive(Debug)]
pub struct ColorInfo {
    possible: Vec<bool>,
}

impl ColorInfo {
    pub fn new() -> (r: ColorInfo)
        ensures
            r.wf(),
            r.possible_set() == all_colors().to_set(),
    {
        ColorInfo::initialize()
    }
}

impl Info<Color> for ColorInfo {
    open spec fn domain() -> Seq<Color> {
        all_colors()
    }

    closed spec fn wf(&self) -> bool {
        self.possible@.len() == 5
    }

    closed spec fn possible_set(&self) -> Set<Color> {
        Set::new(|c: Color| self.possible@[color_index(c)])
    }

    fn get_all_possibilities() -> (r: Vec<Color>) {
        colors()
    }

    fn initialize() -> (r: ColorInfo) {
        let mut possible: Vec<bool> = Vec::new();
        let mut i: usize = 0;
        while i < 5
            invariant
                i <= 5,
                possible@.len() == i,
                forall|j: int| 0 <= j < i ==> #[trigger] possible@[j],
            decreases 5 - i,
        {
            possible.push(true);
            i = i + 1;
        }
        let r = ColorInfo { possible };
        proof {
            lemma_colors_indexed();
            assert forall|c: Color| r.possible_set().contains(c) implies all_colors().to_set().contains(c) by {
                assert(all_colors()[color_index(c)] == c);
            }
            assert(r.possible_set() =~= all_colors().to_set());
        }
        r
    }

    fn get_possibilities(&self) -> (r: Vec<Color>) {
        let all = colors();
        let mut r: Vec<Color> = Vec::new();
        let mut i: usize = 0;
        proof { lemma_colors_indexed(); }
        while i < 5
            invariant
                i <= 5,
                self.wf(),
                all@ == all_colors(),
                all_colors().len() == 5,
                forall|j: int| 0 <= j < 5 ==> #[trigger] color_index(all_colors()[j]) == j,
                r@ == all@.subrange(0, i as int).filter(|t: Color| self.possible_set().contains(t)),
            decreases 5 - i,
        {
            proof {
                let p = |t: Color| self.possible_set().contains(t);
                let s1 = all@.subrange(0, i + 1);
                reveal(Seq::filter);
                assert(s1.drop_last() =~= all@.subrange(0, i as int));
                assert(s1.last() == all@[i as int]);
                assert(p(all@[i as int]) == self.possible@[i as int]);
            }
            if self.possible[i] {
                r.push(all[i]);
            }
            i = i + 1;
        }
        assert(all@.subrange(0, 5) =~= all@);
        r
    }

    fn is_possible(&self, value: &Color) -> (r: bool) {
        self.possible[color_index_of(value)]
    }

    fn mark_true(&mut self, value: &Color) {
        self.possible = only_flag(color_index_of(value));
        proof {
            lemma_color_index_injective();
            assert(self.possible_set() =~= set![*value]);
        }
    }

    fn mark_false(&mut self, value: &Color) {
        self.possible.set(color_index_of(value), false);
        proof {
            lemma_color_index_injective();
            assert(self.possible_set() =~= old(self).possible_set().remove(*value));
        }
    }

    fn mark(&mut self, value: &Color, info: bool) {
        if info {
            self.mark_true(value);
        } else {
            self.mark_false(value);
        }
    }
}

/// Distinct colors sit at distinct catalog positions.
proof fn lemma_color_index_injective()
    ensures
        forall|a: Color, b: Color| #[trigger] color_index(a) == #[trigger] color_index(b) ==> a == b,
{
}

/// Which values are still possible for a card.
#[derive(Debug)]
pub struct ValueInfo {
    possible: Vec<bool>,
}

impl ValueInfo {
    /// Only catalog values are ever possible.
    pub proof fn lemma_in_domain(&self)
        requires
            self.wf(),
        ensures
            forall|v: Value| #[trigger] self.possible_set().contains(v) ==> is_value(v),
    {
    }

    pub fn new() -> (r: ValueInfo)
        ensures
            r.wf(),
            r.possible_set() == all_values().to_set(),
    {
        ValueInfo::initialize()
    }
}

impl Info<Value> for ValueInfo {
    open spec fn domain() -> Seq<Value> {
        all_values()
    }

    closed spec fn wf(&self) -> bool {
        self.possible@.len() == 5
    }

    closed spec fn possible_set(&self) -> Set<Value> {
        Set::new(|v: Value| is_value(v) && self.possible@[v - 1])
    }

    fn get_all_possibilities() -> (r: Vec<Value>) {
        values()
    }

    fn initialize() -> (r: ValueInfo) {
        let mut possible: Vec<bool> = Vec::new();
        let mut i: usize = 0;
        while i < 5
            invariant
                i <= 5,
                possible@.len() == i,
                forall|j: int| 0 <= j < i ==> #[trigger] possible@[j],
            decreases 5 - i,
        {
            possible.push(true);
            i = i + 1;
        }
        let r = ValueInfo { possible };
        proof {
            lemma_values_indexed();
            assert forall|v: Value| r.possible_set().contains(v) implies all_values().to_set().contains(v) by {
                assert(all_values()[v - 1] == v);
            }
            assert(r.possible_set() =~= all_values().to_set());
        }
        r
    }

    fn get_possibilities(&self) -> (r: Vec<Value>) {
        let all = values();
        let mut r: Vec<Value> = Vec::new();
        let mut i: usize = 0;
        proof { lemma_values_indexed(); }
        while i < 5
            invariant
                i <= 5,
                self.wf(),
                all@ == all_values(),
                all_values().len() == 5,
                forall|j: int| 0 <= j < 5 ==> #[trigger] all_values()[j] == j + 1,
                r@ == all@.subrange(0, i as int).filter(|t: Value| self.possible_set().contains(t)),
            decreases 5 - i,
        {
            proof {
                let p = |t: Value| self.possible_set().contains(t);
                let s1 = all@.subrange(0, i + 1);
                reveal(Seq::filter);
                assert(s1.drop_last() =~= all@.subrange(0, i as int));
                assert(s1.last() == all@[i as int]);
                assert(p(all@[i as int]) == self.possible@[i as int]);
            }
            if self.possible[i] {
                r.push(all[i]);
            }
            i = i + 1;
        }
        assert(all@.subrange(0, 5) =~= all@);
        r
    }

    fn is_possible(&self, value: &Value) -> (r: bool) {
        if 1 <= *value && *value <= 5 {
            self.possible[(*value - 1) as usize]
        } else {
            false
        }
    }

    fn mark_true(&mut self, value: &Value) {
        self.possible = only_flag((*value - 1) as usize);
        proof {
            assert(self.possible_set() =~= set![*value]);
        }
    }

    fn mark_false(&mut self, value: &Value) {
        if 1 <= *value && *value <= 5 {
            self.possible.set((*value - 1) as usize, false);
        }
        proof {
            assert(self.possible_set() =~= old(self).possible_set().remove(*value));
        }
    }

    fn mark(&mut self, value: &Value, info: bool) {
        if info {
            self.mark_true(value);
        } else {
            self.mark_false(value);
        }
    }
}

/// The possible cards of `s`, in catalog order.
pub open spec fn possible_cards(s: Set<Card>) -> Seq<Card> {
    all_cards().filter(|c: Card| s.contains(c))
}

/// The cards of `s` not of color `color`.
pub open spec fn without_color(s: Set<Card>, color: Color) -> Set<Card> {
    s.filter(|c: Card| c.color != color)
}

/// The cards of `s` of color `color`.
pub open spec fn only_color(s: Set<Card>, color: Color) -> Set<Card> {
    s.filter(|c: Card| c.color == color)
}

/// The cards of `s` not of value `value`.
pub open spec fn without_value(s: Set<Card>, value: Value) -> Set<Card> {
    s.filter(|c: Card| c.value != value)
}

/// The cards of `s` of value `value`.
pub open spec fn only_value(s: Set<Card>, value: Value) -> Set<Card> {
    s.filter(|c: Card| c.value == value)
}

/// Knowledge about a hidden card: which cards it may still be, and how likely each is.
pub trait CardInfo: Sized {
    spec fn wf(&self) -> bool;

    /// The cards still considered possible.
    spec fn possible_set(&self) -> Set<Card>;

    /// The likelihood weight of a card.
    spec fn weight_of(&self, card: Card) -> u32;

    /// Every catalog card, in catalog order.
    fn get_all_possibilities(&self) -> (r: Vec<Card>)
        ensures
            r@ == all_cards(),
    {
        all_card_list()
    }

    fn is_possible(&self, card: &Card) -> (r: bool)
        requires
            self.wf(),
        ensures
            r == self.possible_set().contains(*card),
    ;

    /// The possible cards, in catalog order.
    fn get_possibilities(&self) -> (r: Vec<Card>)
        requires
            self.wf(),
        ensures
            r@ == possible_cards(self.possible_set()),
    {
        let all = all_card_list();
        let mut r: Vec<Card> = Vec::new();
        let mut i: usize = 0;
        proof {
            lemma_all_cards();
        }
        while i < 25
            invariant
                i <= 25,
                self.wf(),
                all@ == all_cards(),
                all_cards().len() == 25,
                r@ == all@.subrange(0, i as int).filter(|c: Card| self.possible_set().contains(c)),
            decreases 25 - i,
        {
            proof {
                let s1 = all@.subrange(0, i + 1);
                reveal(Seq::filter);
                assert(s1.drop_last() =~= all@.subrange(0, i as int));
                assert(s1.last() == all@[i as int]);
            }
            if self.is_possible(&all[i]) {
                r.push(all[i]);
            }
            i = i + 1;
        }
        assert(all@.subrange(0, 25) =~= all@);
        r
    }

    fn get_weight(&self, card: &Card) -> (r: u32)
        requires
            self.wf(),
        ensures
            r == self.weight_of(*card),
    ;

    /// Each possible card, in catalog order, with its weight.
    fn get_weighted_possibilities(&self) -> (r: Vec<(Card, u32)>)
        requires
            self.wf(),
        ensures
            r@ == possible_cards(self.possible_set()).map_values(
                |c: Card| (c, self.weight_of(c)),
            ),
    {
        let cards = self.get_possibilities();
        let mut r: Vec<(Card, u32)> = Vec::new();
        let mut i: usize = 0;
        while i < cards.len()
            invariant
                i <= cards@.len(),
                self.wf(),
                cards@ == possible_cards(self.possible_set()),
                r@.len() == i,
                forall|k: int| 0 <= k < i ==> #[trigger] r@[k] == (cards@[k], self.weight_of(cards@[k])),
            decreases cards@.len() - i,
        {
            let weight = self.get_weight(&cards[i]);
            r.push((cards[i], weight));
            i = i + 1;
        }
        assert(r@ =~= cards@.map_values(|c: Card| (c, self.weight_of(c))));
        r
    }

    /// Excludes every card of color `color`.
    fn mark_color_false(&mut self, color: &Color)
        requires
            old(self).wf(),
        ensures
            final(self).wf(),
            final(self).possible_set() == without_color(old(self).possible_set(), *color),
            forall|c: Card| #[trigger]
                final(self).possible_set().contains(c) ==> final(self).weight_of(c) == old(
                    self,
                ).weight_of(c),
    ;

    /// Excludes every card not of color `color`.
    fn mark_color_true(&mut self, color: &Color)
        requires
            old(self).wf(),
        ensures
            final(self).wf(),
            final(self).possible_set() == only_color(old(self).possible_set(), *color),
            forall|c: Card| #[trigger]
                final(self).possible_set().contains(c) ==> final(self).weight_of(c) == old(
                    self,
                ).weight_of(c),
    {
        let cs = colors();
        let ghost s0 = self.possible_set();
        let ghost w0 = |c: Card| self.weight_of(c);
        let mut i: usize = 0;
        proof {
            lemma_colors_indexed();
            assert(s0 =~= s0.filter(|c: Card| !(c.color != *color && color_index(c.color) < 0)));
        }
        while i < 5
            invariant
                i <= 5,
                self.wf(),
                cs@ == all_colors(),
                all_colors().len() == 5,
                forall|j: int| 0 <= j < 5 ==> #[trigger] color_index(all_colors()[j]) == j,
                self.possible_set() == s0.filter(
                    |c: Card| !(c.color != *color && color_index(c.color) < i),
                ),
                forall|c: Card| #[trigger]
                    self.possible_set().contains(c) ==> self.weight_of(c) == w0(c),
            decreases 5 - i,
        {
            let other = cs[i];
            if other != *color {
                self.mark_color_false(&other);
            }
            proof {
                lemma_color_index_injective();
                assert(self.possible_set() =~= s0.filter(
                    |c: Card| !(c.color != *color && color_index(c.color) < i + 1),
                ));
            }
            i = i + 1;
        }
        proof {
            lemma_colors_indexed();
            assert(self.possible_set() =~= only_color(s0, *color));
        }
    }

    fn mark_color(&mut self, color: &Color, is_color: bool)
        requires
            old(self).wf(),
        ensures
            final(self).wf(),
            is_color ==> final(self).possible_set() == only_color(old(self).possible_set(), *color),
            !is_color ==> final(self).possible_set() == without_color(
                old(self).possible_set(),
                *color,
            ),
            forall|c: Card| #[trigger]
                final(self).possible_set().contains(c) ==> final(self).weight_of(c) == old(
                    self,
                ).weight_of(c),
    {
        if is_color {
            self.mark_color_true(color);
        } else {
            self.mark_color_false(color);
        }
    }

    /// Excludes every card of value `value`.
    fn mark_value_false(&mut self, value: &Value)
        requires
            old(self).wf(),
        ensures
            final(self).wf(),
            final(self).possible_set() == without_value(old(self).possible_set(), *value),
            forall|c: Card| #[trigger]
                final(self).possible_set().contains(c) ==> final(self).weight_of(c) == old(
                    self,
                ).weight_of(c),
    ;

    /// Excludes every card not of value `value`.
    fn mark_value_true(&mut self, value: &Value)
        requires
            old(self).wf(),
        ensures
            final(self).wf(),
            final(self).possible_set() == only_value(old(self).possible_set(), *value),
            forall|c: Card| #[trigger]
                final(self).possible_set().contains(c) ==> final(self).weight_of(c) == old(
                    self,
                ).weight_of(c),
    {
        let vs = values();
        let ghost s0 = self.possible_set();
        let ghost w0 = |c: Card| self.weight_of(c);
        let mut i: usize = 0;
        proof {
            lemma_values_indexed();
            assert(s0 =~= s0.filter(|c: Card| !(c.value != *value && 1 <= c.value <= 0)));
        }
        while i < 5
            invariant
                i <= 5,
                self.wf(),
                vs@ == all_values(),
                all_values().len() == 5,
                forall|j: int| 0 <= j < 5 ==> #[trigger] all_values()[j] == j + 1,
                self.possible_set() == s0.filter(
                    |c: Card| !(c.value != *value && 1 <= c.value <= i),
                ),
                forall|c: Card| #[trigger]
                    self.possible_set().contains(c) ==> self.weight_of(c) == w0(c),
            decreases 5 - i,
        {
            let other = vs[i];
            if other != *value {
                self.mark_value_false(&other);
            }
            proof {
                assert(self.possible_set() =~= s0.filter(
                    |c: Card| !(c.value != *value && 1 <= c.value <= i + 1),
                ));
            }
            i = i + 1;
        }
        proof {
            assert forall|c: Card| #[trigger] self.possible_set().contains(c) implies is_value(c.value) by {
                self.lemma_possible_are_cards();
            }
            assert(self.possible_set() =~= only_value(s0, *value));
        }
    }

    fn mark_value(&mut self, value: &Value, is_value: bool)
        requires
            old(self).wf(),
        ensures
            final(self).wf(),
            is_value ==> final(self).possible_set() == only_value(old(self).possible_set(), *value),
            !is_value ==> final(self).possible_set() == without_value(
                old(self).possible_set(),
                *value,
            ),
            forall|c: Card| #[trigger]
                final(self).possible_set().contains(c) ==> final(self).weight_of(c) == old(
                    self,
                ).weight_of(c),
    {
        if is_value {
            self.mark_value_true(value);
        } else {
            self.mark_value_false(value);
        }
    }

    /// Only catalog cards are ever possible.
    proof fn lemma_possible_are_cards(&self)
        requires
            self.wf(),
        ensures
            forall|c: Card| #[trigger] self.possible_set().contains(c) ==> is_card(c),
    ;
}

/// Knowledge of the form "this color is (not) possible", "this value is (not) possible":
/// the possible cards are every possible color paired with every possible value.
#[derive(Debug)]
pub struct SimpleCardInfo {
    pub color_info: ColorInfo,
    pub value_info: ValueInfo,
}

impl SimpleCardInfo {
    pub fn new() -> (r: SimpleCardInfo)
        ensures
            r.wf(),
            r.color_info.possible_set() == all_colors().to_set(),
            r.value_info.possible_set() == all_values().to_set(),
            r.possible_set() == all_cards().to_set(),
            forall|c: Card| #[trigger] r.possible_set().contains(c) == is_card(c),
    {
        let r = SimpleCardInfo { color_info: ColorInfo::new(), value_info: ValueInfo::new() };
        proof {
            lemma_catalog_is_product();
            assert(r.possible_set() =~= product(all_colors().to_set(), all_values().to_set()));
        }
        r
    }
}

impl CardInfo for SimpleCardInfo {
    open spec fn wf(&self) -> bool {
        self.color_info.wf() && self.value_info.wf()
    }

    open spec fn possible_set(&self) -> Set<Card> {
        Set::new(
            |c: Card|
                self.color_info.possible_set().contains(c.color)
                    && self.value_info.possible_set().contains(c.value),
        )
    }

    /// Every possible card is equally likely.
    open spec fn weight_of(&self, card: Card) -> u32 {
        1
    }

    fn is_possible(&self, card: &Card) -> (r: bool) {
        self.color_info.is_possible(&card.color) && self.value_info.is_possible(&card.value)
    }

    /// Each possible color paired with each possible value.
    fn get_possibilities(&self) -> (r: Vec<Card>) {
        let cs = self.color_info.get_possibilities();
        let vs = self.value_info.get_possibilities();
        let mut r: Vec<Card> = Vec::new();
        let mut i: usize = 0;
        while i < cs.len()
            invariant
                i <= cs@.len(),
                r@ == rows(cs@.subrange(0, i as int), vs@),
            decreases cs@.len() - i,
        {
            let mut j: usize = 0;
            while j < vs.len()
                invariant
                    i < cs@.len(),
                    j <= vs@.len(),
                    r@ == rows(cs@.subrange(0, i as int), vs@) + row(
                        cs@[i as int],
                        vs@.subrange(0, j as int),
                    ),
                decreases vs@.len() - j,
            {
                r.push(Card::new(cs[i], vs[j]));
                assert(row(cs@[i as int], vs@.subrange(0, j + 1)) =~= row(
                    cs@[i as int],
                    vs@.subrange(0, j as int),
                ).push(Card { color: cs@[i as int], value: vs@[j as int] }));
                j = j + 1;
            }
            assert(vs@.subrange(0, vs@.len() as int) =~= vs@);
            assert(cs@.subrange(0, i + 1).drop_last() =~= cs@.subrange(0, i as int));
            i = i + 1;
        }
        assert(cs@.subrange(0, cs@.len() as int) =~= cs@);
        proof {
            let p = |c: Color| self.color_info.possible_set().contains(c);
            let q = |v: Value| self.value_info.possible_set().contains(v);
            lemma_catalog_rows();
            lemma_filter_rows(all_colors(), all_values(), p, q);
            lemma_filter_same_pred(
                all_cards(),
                |c: Card| p(c.color) && q(c.value),
                |c: Card| self.possible_set().contains(c),
            );
        }
        r
    }

    fn get_weight(&self, card: &Card) -> (r: u32) {
        1
    }

    fn mark_color_false(&mut self, color: &Color) {
        self.color_info.mark_false(color);
        assert(self.possible_set() =~= without_color(old(self).possible_set(), *color));
    }

    fn mark_value_false(&mut self, value: &Value) {
        self.value_info.mark_false(value);
        assert(self.possible_set() =~= without_value(old(self).possible_set(), *value));
    }

    proof fn lemma_possible_are_cards(&self) {
        ValueInfo::lemma_in_domain(&self.value_info);
    }
}

/// Knowledge of the form "this card is (not) possible", with a weight per possible card:
/// how many of its copies are believed unseen.
#[derive(Clone, Debug)]
pub struct CardPossibilityTable {
    /// Weight of each catalog card, by catalog position; 0 marks an excluded card.
    weights: Vec<u32>,
}

impl CardPossibilityTable {
    /// A table with every catalog card possible, each weighted by its number of copies.
    pub fn new() -> (r: CardPossibilityTable)
        ensures
            r.wf(),
            r.possible_set() == all_cards().to_set(),
            forall|c: Card| #[trigger] r.possible_set().contains(c) == is_card(c),
            forall|c: Card| is_card(c) ==> #[trigger] r.weight_of(c) == copies_of(c.value),
    {
        let all = all_card_list();
        let mut weights: Vec<u32> = Vec::new();
        let mut i: usize = 0;
        proof {
            lemma_all_cards();
        }
        while i < 25
            invariant
                i <= 25,
                all@ == all_cards(),
                all_cards().len() == 25,
                weights@.len() == i,
                forall|k: int| 0 <= k < i ==> #[trigger] weights@[k] == copies_of(all_cards()[k].value),
                forall|k: int| 0 <= k < 25 ==> is_card(#[trigger] all_cards()[k]),
            decreases 25 - i,
        {
            weights.push(get_count_for_value(&all[i].value));
            i = i + 1;
        }
        let r = CardPossibilityTable { weights };
        proof {
            assert forall|c: Card| #[trigger] all_cards().to_set().contains(c) implies r.possible_set().contains(c) by {
                let k = choose|k: int| 0 <= k < 25 && all_cards()[k] == c;
                assert(card_index(all_cards()[k]) == k);
            }
            assert forall|c: Card| #[trigger] r.possible_set().contains(c) implies all_cards().to_set().contains(c) by {
                assert(all_cards()[card_index(c)] == c);
            }
            assert(r.possible_set() =~= all_cards().to_set());
        }
        r
    }

    /// Excludes one card; the other cards keep their weights.
    fn mark_false(&mut self, card: &Card)
        requires
            old(self).wf(),
        ensures
            final(self).wf(),
            final(self).possible_set() == old(self).possible_set().remove(*card),
            forall|c: Card| c != *card ==> #[trigger] final(self).weight_of(c) == old(self).weight_of(c),
    {
        proof {
            lemma_all_cards();
        }
        if 1 <= card.value && card.value <= 5 {
            self.weights.set(card_index_of(card), 0);
        }
        assert(self.possible_set() =~= old(self).possible_set().remove(*card));
    }

    /// A weight is at most the copies of the card's value, and is 0 exactly when the card
    /// is excluded.
    pub proof fn lemma_weight_bounded(&self)
        requires
            self.wf(),
        ensures
            forall|c: Card| #[trigger] self.weight_of(c) <= copies_of(c.value),
            forall|c: Card| (#[trigger] self.weight_of(c) == 0) == !self.possible_set().contains(c),
    {
    }
}

impl CardInfo for CardPossibilityTable {
    closed spec fn wf(&self) -> bool {
        &&& self.weights@.len() == 25
        &&& forall|c: Card|
            is_card(c) ==> (#[trigger] self.weights@[card_index(c)] == 0 || self.weights@[card_index(
                c,
            )] == copies_of(c.value))
    }

    closed spec fn possible_set(&self) -> Set<Card> {
        Set::new(|c: Card| is_card(c) && self.weights@[card_index(c)] > 0)
    }

    closed spec fn weight_of(&self, card: Card) -> u32 {
        if is_card(card) {
            self.weights@[card_index(card)]
        } else {
            0
        }
    }

    fn is_possible(&self, card: &Card) -> (r: bool) {
        if 1 <= card.value && card.value <= 5 {
            self.weights[card_index_of(card)] > 0
        } else {
            false
        }
    }

    fn get_weight(&self, card: &Card) -> (r: u32) {
        if 1 <= card.value && card.value <= 5 {
            self.weights[card_index_of(card)]
        } else {
            0
        }
    }

    fn mark_color_false(&mut self, color: &Color) {
        let vs = values();
        let ghost s0 = self.possible_set();
        let ghost w0 = |c: Card| self.weight_of(c);
        let mut i: usize = 0;
        proof {
            lemma_values_indexed();
            assert(s0 =~= s0.filter(|c: Card| !(c.color == *color && c.value <= 0)));
        }
        while i < 5
            invariant
                i <= 5,
                self.wf(),
                vs@ == all_values(),
                all_values().len() == 5,
                forall|j: int| 0 <= j < 5 ==> #[trigger] all_values()[j] == j + 1,
                self.possible_set() == s0.filter(|c: Card| !(c.color == *color && c.value <= i)),
                forall|c: Card| #[trigger]
                    self.possible_set().contains(c) ==> self.weight_of(c) == w0(c),
            decreases 5 - i,
        {
            self.mark_false(&Card::new(*color, vs[i]));
            assert(self.possible_set() =~= s0.filter(
                |c: Card| !(c.color == *color && c.value <= i + 1),
            ));
            i = i + 1;
        }
        assert(self.possible_set() =~= without_color(s0, *color));
    }

    fn mark_value_false(&mut self, value: &Value) {
        let cs = colors();
        let ghost s0 = self.possible_set();
        let ghost w0 = |c: Card| self.weight_of(c);
        let mut i: usize = 0;
        proof {
            lemma_colors_indexed();
            assert(s0 =~= s0.filter(|c: Card| !(c.value == *value && color_index(c.color) < 0)));
        }
        while i < 5
            invariant
                i <= 5,
                self.wf(),
                cs@ == all_colors(),
                all_colors().len() == 5,
                forall|j: int| 0 <= j < 5 ==> #[trigger] color_index(all_colors()[j]) == j,
                forall|c: Color| 0 <= #[trigger] color_index(c) < 5,
                self.possible_set() == s0.filter(
                    |c: Card| !(c.value == *value && color_index(c.color) < i),
                ),
                forall|c: Card| #[trigger]
                    self.possible_set().contains(c) ==> self.weight_of(c) == w0(c),
            decreases 5 - i,
        {
            self.mark_false(&Card::new(cs[i], *value));
            proof {
                lemma_color_index_injective();
                assert(self.possible_set() =~= s0.filter(
                    |c: Card| !(c.value == *value && color_index(c.color) < i + 1),
                ));
            }
            i = i + 1;
        }
        assert(self.possible_set() =~= without_value(s0, *value));
    }

    proof fn lemma_possible_are_cards(&self) {
    }
}

/// Letters of the colors of `cs`, in order.
pub open spec fn color_letters(cs: Seq<Color>) -> Seq<char> {
    cs.map_values(|c: Color| color_char(c))
}

/// Digits of the values of `vs`, in order.
pub open spec fn value_digits(vs: Seq<Value>) -> Seq<char> {
    vs.map_values(|v: Value| value_char(v))
}

/// `t` followed by spaces up to `width` characters in all.
pub open spec fn padded(t: Seq<char>, width: nat) -> Seq<char> {
    if t.len() < width {
        t + Seq::new((width - t.len()) as nat, |i: int| ' ')
    } else {
        t
    }
}

/// Text of a sequence of cards: each card's text followed by a comma and a space.
pub open spec fn cards_text(cs: Seq<Card>) -> Seq<char>
    decreases cs.len(),
{
    if cs.len() == 0 {
        Seq::empty()
    } else {
        cards_text(cs.drop_last()) + card_text(cs.last()) + seq![',', ' ']
    }
}

impl SimpleCardInfo {
    /// The summary text: the letters of the possible colors, a space, then the digits of
    /// the possible values, such as `RY 12`.
    pub open spec fn summary(&self) -> Seq<char> {
        color_letters(all_colors().filter(|c: Color| self.color_info.possible_set().contains(c)))
            + seq![' '] + value_digits(
            all_values().filter(|v: Value| self.value_info.possible_set().contains(v)),
        )
    }

    pub fn to_string(&self) -> (r: String)
        requires
            self.wf(),
        ensures
            r@ == self.summary(),
    {
        let cs = self.color_info.get_possibilities();
        let vs = self.value_info.get_possibilities();
        let mut s = String::new();
        let mut i: usize = 0;
        while i < cs.len()
            invariant
                i <= cs@.len(),
                s@ == color_letters(cs@.subrange(0, i as int)),
            decreases cs@.len() - i,
        {
            s.append(display_color(&cs[i]));
            assert(color_letters(cs@.subrange(0, i + 1)) =~= color_letters(
                cs@.subrange(0, i as int),
            ).push(color_char(cs@[i as int])));
            i = i + 1;
        }
        assert(cs@.subrange(0, cs@.len() as int) =~= cs@);
        proof {
            reveal_strlit(" ");
        }
        s.append(" ");
        let ghost head = s@;
        let mut j: usize = 0;
        proof {
            ValueInfo::lemma_in_domain(&self.value_info);
            assert forall|k: int| 0 <= k < vs@.len() implies is_value(#[trigger] vs@[k]) by {
                all_values().lemma_filter_pred(|v: Value| self.value_info.possible_set().contains(v), k);
            }
        }
        while j < vs.len()
            invariant
                j <= vs@.len(),
                forall|k: int| 0 <= k < vs@.len() ==> is_value(#[trigger] vs@[k]),
                s@ == head + value_digits(vs@.subrange(0, j as int)),
            decreases vs@.len() - j,
        {
            s.append(display_value(&vs[j]));
            assert(value_digits(vs@.subrange(0, j + 1)) =~= value_digits(
                vs@.subrange(0, j as int),
            ).push(value_char(vs@[j as int])));
            j = j + 1;
        }
        assert(vs@.subrange(0, vs@.len() as int) =~= vs@);
        assert(s@ =~= self.summary());
        s
    }

    /// The summary text, padded with spaces on the right to at least `width` characters.
    pub fn to_padded_string(&self, width: usize) -> (r: String)
        requires
            self.wf(),
        ensures
            r@ == padded(self.summary(), width as nat),
    {
        let mut s = self.to_string();
        let ghost text = s@;
        let n = self.color_info.get_possibilities().len() + 1 + self.value_info.get_possibilities().len();
        assert(n == text.len());
        let mut k: usize = n;
        proof {
            reveal_strlit(" ");
        }
        while k < width
            invariant
                n <= k,
                k <= width || k == n,
                s@ == text + Seq::new((k - n) as nat, |i: int| ' '),
            decreases width - k,
        {
            proof {
                reveal_strlit(" ");
            }
            s.append(" ");
            assert(text + Seq::new((k + 1 - n) as nat, |i: int| ' ') =~= text + Seq::new(
                (k - n) as nat,
                |i: int| ' ',
            ) + seq![' ']);
            k = k + 1;
        }
        assert(s@ =~= padded(text, width as nat));
        s
    }
}

impl CardPossibilityTable {
    /// Each possible card in catalog order, as text, each followed by `, `.
    pub fn to_string(&self) -> (r: String)
        requires
            self.wf(),
        ensures
            r@ == cards_text(possible_cards(self.possible_set())),
    {
        let cards = self.get_possibilities();
        let mut s = String::new();
        let mut i: usize = 0;
        proof {
            reveal_strlit(", ");
            self.lemma_possible_are_cards();
            assert forall|k: int| 0 <= k < cards@.len() implies is_card(#[trigger] cards@[k]) by {
                all_cards().lemma_filter_pred(|c: Card| self.possible_set().contains(c), k);
            }
        }
        while i < cards.len()
            invariant
                i <= cards@.len(),
                forall|k: int| 0 <= k < cards@.len() ==> is_card(#[trigger] cards@[k]),
                s@ == cards_text(cards@.subrange(0, i as int)),
            decreases cards@.len() - i,
        {
            proof {
                reveal_strlit(", ");
            }
            let t = cards[i].to_string();
            s.append(t.as_str());
            s.append(", ");
            assert(cards@.subrange(0, i + 1).drop_last() =~= cards@.subrange(0, i as int));
            assert(s@ =~= cards_text(cards@.subrange(0, i + 1)));
            i = i + 1;
        }
        assert(cards@.subrange(0, cards@.len() as int) =~= cards@);
        s
    }
}

/// A fresh attribute tracker lists exactly its domain: nothing left out, nothing repeated.
pub proof fn lemma_fresh_attribute_possibilities<T>(domain: Seq<T>)
    ensures
        domain.filter(|t: T| domain.to_set().contains(t)) == domain,
{
    assert forall|i: int| 0 <= i < domain.len() implies #[trigger] domain.to_set().contains(
        domain[i],
    ) by {
        assert(domain.contains(domain[i]));
    }
    lemma_filter_keeps_all(domain, |t: T| domain.to_set().contains(t));
}

/// A fresh card tracker lists exactly the catalog: every card once, in catalog order.
pub proof fn lemma_fresh_card_possibilities()
    ensures
        possible_cards(all_cards().to_set()) == all_cards(),
{
    lemma_fresh_attribute_possibilities(all_cards());
}

/// An observation that rules out a whole color or a whole value.
pub enum Exclusion {
    NotColor(Color),
    NotValue(Value),
}

/// Whether exclusion `e` rules out card `c`.
pub open spec fn excludes(e: Exclusion, c: Card) -> bool {
    match e {
        Exclusion::NotColor(color) => c.color == color,
        Exclusion::NotValue(value) => c.value == value,
    }
}

/// The cards of `s` left after the exclusions `es`, applied in order.
pub open spec fn narrow_cards(s: Set<Card>, es: Seq<Exclusion>) -> Set<Card>
    decreases es.len(),
{
    if es.len() == 0 {
        s
    } else {
        let prior = narrow_cards(s, es.drop_last());
        match es.last() {
            Exclusion::NotColor(color) => without_color(prior, color),
            Exclusion::NotValue(value) => without_value(prior, value),
        }
    }
}

/// The colors of `s` left after the color exclusions among `es`.
pub open spec fn narrow_colors(s: Set<Color>, es: Seq<Exclusion>) -> Set<Color>
    decreases es.len(),
{
    if es.len() == 0 {
        s
    } else {
        let prior = narrow_colors(s, es.drop_last());
        match es.last() {
            Exclusion::NotColor(color) => prior.remove(color),
            Exclusion::NotValue(_) => prior,
        }
    }
}

/// The values of `s` left after the value exclusions among `es`.
pub open spec fn narrow_values(s: Set<Value>, es: Seq<Exclusion>) -> Set<Value>
    decreases es.len(),
{
    if es.len() == 0 {
        s
    } else {
        let prior = narrow_values(s, es.drop_last());
        match es.last() {
            Exclusion::NotColor(_) => prior,
            Exclusion::NotValue(value) => prior.remove(value),
        }
    }
}

/// The cards whose color is in `colors` and whose value is in `values`.
pub open spec fn product(colors: Set<Color>, values: Set<Value>) -> Set<Card> {
    Set::new(|c: Card| colors.contains(c.color) && values.contains(c.value))
}

/// Narrowing only removes cards, and a card ruled out by any exclusion of the sequence
/// never comes back.
pub proof fn lemma_narrowing_monotone(s: Set<Card>, es: Seq<Exclusion>)
    ensures
        narrow_cards(s, es).subset_of(s),
        forall|i: int, c: Card|
            0 <= i < es.len() && #[trigger] narrow_cards(s, es).contains(c) ==> !excludes(
                #[trigger] es[i],
                c,
            ),
    decreases es.len(),
{
    if es.len() > 0 {
        lemma_narrowing_monotone(s, es.drop_last());
        assert forall|i: int, c: Card|
            0 <= i < es.len() && #[trigger] narrow_cards(s, es).contains(c) implies !excludes(
            #[trigger] es[i],
            c,
        ) by {
            if i < es.len() - 1 {
                assert(es.drop_last()[i] == es[i]);
                assert(narrow_cards(s, es.drop_last()).contains(c));
            }
        }
    }
}

/// Under whole-color and whole-value exclusions alone, tracking color and value
/// independently gives the same possible cards as tracking cards jointly.
pub proof fn lemma_independent_matches_joint(
    colors: Set<Color>,
    values: Set<Value>,
    es: Seq<Exclusion>,
)
    ensures
        product(narrow_colors(colors, es), narrow_values(values, es)) == narrow_cards(
            product(colors, values),
            es,
        ),
    decreases es.len(),
{
    if es.len() > 0 {
        lemma_independent_matches_joint(colors, values, es.drop_last());
        assert(product(narrow_colors(colors, es), narrow_values(values, es)) =~= narrow_cards(
            product(colors, values),
            es,
        ));
    }
}

/// The catalog is every catalog color paired with every catalog value.
pub proof fn lemma_catalog_is_product()
    ensures
        product(all_colors().to_set(), all_values().to_set()) == all_cards().to_set(),
{
    lemma_all_cards();
    lemma_colors_indexed();
    lemma_values_indexed();
    let p = product(all_colors().to_set(), all_values().to_set());
    assert forall|c: Card| #[trigger] p.contains(c) implies all_cards().to_set().contains(c) by {
        assert(all_cards()[card_index(c)] == c);
    }
    assert forall|c: Card| #[trigger] all_cards().to_set().contains(c) implies p.contains(c) by {
        let i = choose|i: int| 0 <= i < 25 && all_cards()[i] == c;
        assert(all_colors().contains(all_colors()[i / 5]));
        assert(all_values().contains(all_values()[i % 5]));
    }
    assert(p =~= all_cards().to_set());
}

/// The cards of color `color` with the values of `vs`, in the order of `vs`.
pub open spec fn row(color: Color, vs: Seq<Value>) -> Seq<Card> {
    vs.map_values(|v: Value| Card { color, value: v })
}

/// For each color of `cs` in turn, its row over `vs`.
pub open spec fn rows(cs: Seq<Color>, vs: Seq<Value>) -> Seq<Card>
    decreases cs.len(),
{
    if cs.len() == 0 {
        Seq::empty()
    } else {
        rows(cs.drop_last(), vs) + row(cs.last(), vs)
    }
}

/// Filtering a row by value filters its values.
proof fn lemma_filter_row(color: Color, vs: Seq<Value>, q: spec_fn(Value) -> bool)
    ensures
        row(color, vs).filter(|c: Card| q(c.value)) == row(color, vs.filter(q)),
    decreases vs.len(),
{
    reveal(Seq::filter);
    if vs.len() == 0 {
        assert(row(color, vs).filter(|c: Card| q(c.value)) =~= row(color, vs.filter(q)));
    } else {
        lemma_filter_row(color, vs.drop_last(), q);
        assert(row(color, vs).drop_last() =~= row(color, vs.drop_last()));
        if q(vs.last()) {
            assert(row(color, vs.filter(q)) =~= row(color, vs.drop_last().filter(q)).push(
                Card { color, value: vs.last() },
            ));
        }
    }
}

/// Filtering rows by a color test and a value test keeps the rows of the colors that
/// pass, each over the values that pass.
proof fn lemma_filter_rows(
    cs: Seq<Color>,
    vs: Seq<Value>,
    p: spec_fn(Color) -> bool,
    q: spec_fn(Value) -> bool,
)
    ensures
        rows(cs, vs).filter(|c: Card| p(c.color) && q(c.value)) == rows(cs.filter(p), vs.filter(q)),
    decreases cs.len(),
{
    let pq = |c: Card| p(c.color) && q(c.value);
    reveal(Seq::filter);
    if cs.len() == 0 {
        assert(rows(cs, vs).filter(pq) =~= rows(cs.filter(p), vs.filter(q)));
    } else {
        lemma_filter_rows(cs.drop_last(), vs, p, q);
        Seq::filter_distributes_over_add(rows(cs.drop_last(), vs), row(cs.last(), vs), pq);
        if p(cs.last()) {
            lemma_filter_row(cs.last(), vs, q);
            assert(row(cs.last(), vs).filter(pq) =~= row(cs.last(), vs).filter(
                |c: Card| q(c.value),
            )) by {
                lemma_filter_same_pred(row(cs.last(), vs), pq, |c: Card| q(c.value));
            }
            assert(cs.filter(p).drop_last() =~= cs.drop_last().filter(p));
        } else {
            assert(row(cs.last(), vs).filter(pq) =~= Seq::<Card>::empty()) by {
                lemma_filter_none(row(cs.last(), vs), pq);
            }
            assert(rows(cs.drop_last(), vs).filter(pq) + Seq::<Card>::empty() =~= rows(
                cs.drop_last(),
                vs,
            ).filter(pq));
        }
    }
}

/// Filters whose tests agree on every element give the same result.
proof fn lemma_filter_same_pred<A>(s: Seq<A>, p: spec_fn(A) -> bool, q: spec_fn(A) -> bool)
    requires
        forall|i: int| 0 <= i < s.len() ==> p(#[trigger] s[i]) == q(s[i]),
    ensures
        s.filter(p) == s.filter(q),
    decreases s.len(),
{
    reveal(Seq::filter);
    if s.len() > 0 {
        lemma_filter_same_pred(s.drop_last(), p, q);
        assert(p(s[s.len() - 1]) == q(s[s.len() - 1]));
    }
}

/// A filter that keeps no element of a sequence gives the empty sequence.
proof fn lemma_filter_none<A>(s: Seq<A>, p: spec_fn(A) -> bool)
    requires
        forall|i: int| 0 <= i < s.len() ==> !p(#[trigger] s[i]),
    ensures
        s.filter(p) == Seq::<A>::empty(),
    decreases s.len(),
{
    reveal(Seq::filter);
    if s.len() == 0 {
        assert(s.filter(p) =~= Seq::<A>::empty());
    } else {
        lemma_filter_none(s.drop_last(), p);
        assert(!p(s[s.len() - 1]));
    }
}

/// The catalog lists the rows of the colors in order.
proof fn lemma_catalog_rows()
    ensures
        all_cards() == rows(all_colors(), all_values()),
{
    reveal_with_fuel(rows, 6);
    lemma_colors_indexed();
    lemma_values_indexed();
    assert(all_colors().drop_last().drop_last().drop_last().drop_last().drop_last().len() == 0);
    assert(all_cards() =~= rows(all_colors(), all_values()));
}

} // verus!
