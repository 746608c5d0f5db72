use hanabi::cards::{all_card_list, get_count_for_value, Card, Color};
use hanabi::info::{CardInfo, CardPossibilityTable, ColorInfo, Info, SimpleCardInfo, ValueInfo};

const ALL_COLORS: [Color; 5] = [Color::Blue, Color::Green, Color::Red, Color::White, Color::Yellow];

#[test]
fn fresh_color_info_lists_all_colors() {
    let info = ColorInfo::new();
    assert_eq!(info.get_possibilities(), ColorInfo::get_all_possibilities());
    assert_eq!(info.get_possibilities().len(), 5);
}

#[test]
fn fresh_value_info_lists_all_values() {
    let info = ValueInfo::new();
    assert_eq!(info.get_possibilities(), ValueInfo::get_all_possibilities());
    assert_eq!(info.get_possibilities(), vec![1, 2, 3, 4, 5]);
}

#[test]
fn fresh_card_models_list_all_cards() {
    let simple = SimpleCardInfo::new();
    let table = CardPossibilityTable::new();
    assert_eq!(simple.get_possibilities(), simple.get_all_possibilities());
    assert_eq!(table.get_possibilities(), table.get_all_possibilities());
    assert_eq!(table.get_all_possibilities().len(), 25);
    assert_eq!(all_card_list()[0], Card::new(Color::Blue, 1));
    assert_eq!(all_card_list()[24], Card::new(Color::Yellow, 5));
}

#[test]
fn copies_per_value() {
    assert_eq!(get_count_for_value(&1), 3);
    assert_eq!(get_count_for_value(&2), 2);
    assert_eq!(get_count_for_value(&3), 2);
    assert_eq!(get_count_for_value(&4), 2);
    assert_eq!(get_count_for_value(&5), 1);
}

#[test]
fn table_scenario_after_value_and_color_exclusions() {
    let mut table = CardPossibilityTable::new();
    for color in ALL_COLORS.iter() {
        assert_eq!(table.get_weight(&Card::new(*color, 1)), 3);
    }
    assert_eq!(table.get_possibilities().len(), 25);
    table.mark_value_false(&1);
    table.mark_color_false(&Color::Red);
    assert_eq!(table.get_possibilities().len(), 16);
    assert!(!table.is_possible(&Card::new(Color::Red, 2)));
    assert!(table.is_possible(&Card::new(Color::Blue, 2)));
    assert_eq!(table.get_weight(&Card::new(Color::Blue, 2)), 2);
    assert_eq!(table.get_weight(&Card::new(Color::Red, 2)), 0);
}

#[test]
fn excluded_value_stays_excluded() {
    let mut info = ValueInfo::new();
    info.mark_false(&3);
    assert!(!info.is_possible(&3));
    let mut table = CardPossibilityTable::new();
    table.mark_value_false(&3);
    assert!(!table.is_possible(&Card::new(Color::Green, 3)));
    assert_eq!(table.get_weight(&Card::new(Color::Green, 3)), 0);
}

#[test]
fn narrowing_is_monotone() {
    let mut table = CardPossibilityTable::new();
    table.mark_color_false(&Color::White);
    table.mark_value_false(&4);
    table.mark_color_false(&Color::Blue);
    for card in table.get_possibilities() {
        assert!(card.color != Color::White);
        assert!(card.color != Color::Blue);
        assert!(card.value != 4);
    }
    assert_eq!(table.get_possibilities().len(), 12);
    let mut colors = ColorInfo::new();
    colors.mark_false(&Color::Green);
    colors.mark_false(&Color::Yellow);
    assert!(!colors.is_possible(&Color::Green));
    assert_eq!(colors.get_possibilities(), vec![Color::Blue, Color::Red, Color::White]);
}

#[test]
fn mark_true_leaves_one_value() {
    let mut colors = ColorInfo::new();
    colors.mark_true(&Color::Red);
    assert_eq!(colors.get_possibilities(), vec![Color::Red]);
    let mut values = ValueInfo::new();
    values.mark(&2, true);
    assert_eq!(values.get_possibilities(), vec![2]);
    values.mark(&2, false);
    assert!(values.get_possibilities().is_empty());
}

#[test]
fn mark_color_true_keeps_only_that_color() {
    let mut table = CardPossibilityTable::new();
    table.mark_value_false(&5);
    table.mark_color_true(&Color::Green);
    let expected: Vec<Card> = (1..5).map(|v| Card::new(Color::Green, v)).collect();
    assert_eq!(table.get_possibilities(), expected);
    let mut simple = SimpleCardInfo::new();
    simple.mark_color(&Color::Green, true);
    assert_eq!(simple.get_possibilities().len(), 5);
    assert!(simple.get_possibilities().iter().all(|c| c.color == Color::Green));
}

#[test]
fn mark_value_true_keeps_only_that_value() {
    let mut table = CardPossibilityTable::new();
    table.mark_value(&3, true);
    let expected: Vec<Card> = ALL_COLORS.iter().map(|c| Card::new(*c, 3)).collect();
    assert_eq!(table.get_possibilities(), expected);
    let mut simple = SimpleCardInfo::new();
    simple.mark_value_true(&3);
    assert_eq!(simple.get_possibilities(), expected);
}

#[test]
fn independent_and_joint_models_agree() {
    let mut simple = SimpleCardInfo::new();
    let mut table = CardPossibilityTable::new();
    simple.mark_color_false(&Color::Yellow);
    table.mark_color_false(&Color::Yellow);
    simple.mark_value_false(&2);
    table.mark_value_false(&2);
    simple.mark_color(&Color::Blue, false);
    table.mark_color(&Color::Blue, false);
    simple.mark_value(&5, false);
    table.mark_value(&5, false);
    assert_eq!(simple.get_possibilities(), table.get_possibilities());
    assert_eq!(simple.get_possibilities().len(), 9);
}

#[test]
fn weights_never_exceed_copies() {
    let mut table = CardPossibilityTable::new();
    table.mark_color_false(&Color::Red);
    for card in table.get_all_possibilities() {
        let w = table.get_weight(&card);
        assert!(w <= get_count_for_value(&card.value));
        assert_eq!(w == 0, !table.is_possible(&card));
    }
    let weighted = table.get_weighted_possibilities();
    assert_eq!(weighted.len(), 20);
    assert_eq!(weighted[0], (Card::new(Color::Blue, 1), 3));
    assert_eq!(weighted[4], (Card::new(Color::Blue, 5), 1));
}

#[test]
fn simple_weights_are_uniform() {
    let mut simple = SimpleCardInfo::new();
    simple.mark_value_false(&1);
    let weighted = simple.get_weighted_possibilities();
    assert_eq!(weighted.len(), 20);
    assert!(weighted.iter().all(|(_, w)| *w == 1));
    assert_eq!(simple.get_weight(&Card::new(Color::Red, 1)), 1);
}

#[test]
fn mark_false_twice_equals_once() {
    let mut once = ValueInfo::new();
    once.mark_false(&4);
    let mut twice = ValueInfo::new();
    twice.mark_false(&4);
    twice.mark_false(&4);
    assert_eq!(once.get_possibilities(), twice.get_possibilities());
    let mut table = CardPossibilityTable::new();
    table.mark_color_false(&Color::Red);
    let after_once = table.get_weighted_possibilities();
    table.mark_color_false(&Color::Red);
    assert_eq!(table.get_weighted_possibilities(), after_once);
}

#[test]
fn values_outside_the_catalog_are_never_possible() {
    let mut values = ValueInfo::new();
    assert!(!values.is_possible(&0));
    assert!(!values.is_possible(&6));
    values.mark_false(&6);
    assert_eq!(values.get_possibilities().len(), 5);
    let table = CardPossibilityTable::new();
    assert!(!table.is_possible(&Card::new(Color::Red, 9)));
    assert_eq!(table.get_weight(&Card::new(Color::Red, 9)), 0);
}

#[test]
fn simple_summary_text() {
    let mut simple = SimpleCardInfo::new();
    for color in [Color::Blue, Color::Green, Color::Red, Color::White] {
        simple.mark_color_false(&color);
    }
    simple.mark_value_false(&3);
    simple.mark_value_false(&4);
    simple.mark_value_false(&5);
    assert_eq!(simple.to_string(), "Y 12");
    simple.color_info = ColorInfo::new();
    simple.mark_color_true(&Color::Red);
    let text = simple.to_string();
    assert_eq!(text, "R 12");
    assert_eq!(text.len(), 4);
}

#[test]
fn simple_summary_of_two_colors_padded() {
    let mut simple = SimpleCardInfo::new();
    simple.mark_color_false(&Color::Blue);
    simple.mark_color_false(&Color::Green);
    simple.mark_color_false(&Color::White);
    simple.mark_value_true(&1);
    let mut values = ValueInfo::new();
    values.mark_false(&3);
    values.mark_false(&4);
    values.mark_false(&5);
    simple.value_info = values;
    assert_eq!(simple.to_string(), "RY 12");
    assert_eq!(simple.to_padded_string(8), "RY 12   ");
    assert_eq!(simple.to_padded_string(3), "RY 12");
    assert_eq!(SimpleCardInfo::new().to_string(), "BGRWY 12345");
}

#[test]
fn table_text_lists_possible_cards() {
    let mut table = CardPossibilityTable::new();
    table.mark_value_true(&5);
    table.mark_color_false(&Color::Blue);
    table.mark_color_false(&Color::White);
    assert_eq!(table.to_string(), "G5, R5, Y5, ");
    assert_eq!(Card::new(Color::White, 4).to_string(), "W4");
    table.mark_value_false(&5);
    assert_eq!(table.to_string(), "");
}
