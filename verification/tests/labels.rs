use recipe_calc::label::{assemble_label, label_chars, show};

#[test]
fn label_of_the_empty_identifier() {
    assert_eq!(show(""), "");
}

#[test]
fn label_of_two_words() {
    assert_eq!(show("fire_crystal"), "Fire Crystal");
}

#[test]
fn label_of_single_letters() {
    assert_eq!(show("a_b_c"), "A B C");
}

#[test]
fn label_keeps_empty_fragments() {
    assert_eq!(show("a__b"), "A  B");
    assert_eq!(show("_a"), " A");
    assert_eq!(show("a_"), "A ");
    assert_eq!(show("_"), " ");
}

#[test]
fn label_touches_first_characters_only() {
    assert_eq!(show("meat_jerky"), "Meat Jerky");
    assert_eq!(show("Already_UPPER"), "Already UPPER");
    assert_eq!(show("x1_2y"), "X1 2y");
}

#[test]
fn label_uses_the_full_upper_case_mapping() {
    assert_eq!(show("ßa_éb"), "SSa Éb");
}

#[test]
fn label_is_assembled_from_given_capitals() {
    let chars: Vec<char> = "ab_c".chars().collect();
    let capitals: Vec<Vec<char>> = vec![vec!['X', 'Y'], vec!['?'], vec!['?'], vec![]];
    let out: String = assemble_label(&chars, &capitals).into_iter().collect();
    assert_eq!(out, "XYb ");
    let out: String = assemble_label(&chars, &Vec::new()).into_iter().collect();
    assert_eq!(out, "ab c");
    let out: String = label_chars(&chars).into_iter().collect();
    assert_eq!(out, "Ab C");
}
