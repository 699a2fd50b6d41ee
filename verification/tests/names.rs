use bike_rides::names::{clean_name, trim_replaced};

fn cleaned(name: &str) -> String {
    clean_name(name).expect("the pattern of a decoration is a regex")
}

#[test]
fn clean_name_cuts_a_note_in_parentheses() {
    assert_eq!(cleaned("Rynek (obok fontanny)"), "Rynek");
}

#[test]
fn clean_name_cuts_an_asterisk_before_the_note() {
    assert_eq!(cleaned("Plac Grunwaldzki *(stacja tymczasowa)"), "Plac Grunwaldzki");
    assert_eq!(cleaned("Dworcowa*(P+R)"), "Dworcowa");
}

#[test]
fn clean_name_cuts_from_the_first_parenthesis_on() {
    assert_eq!(cleaned("Most (A) i (B) dalej"), "Most");
}

#[test]
fn clean_name_keeps_a_plain_name() {
    assert_eq!(cleaned("Dworzec Glowny"), "Dworzec Glowny");
    assert_eq!(cleaned(""), "");
}

#[test]
fn clean_name_trims_white_space() {
    assert_eq!(cleaned("  Arkady \t"), "Arkady");
}

#[test]
fn clean_name_keeps_a_lone_asterisk_and_an_unfollowed_parenthesis() {
    assert_eq!(cleaned("Hala*"), "Hala*");
    assert_eq!(cleaned("Hala ("), "Hala (");
}

#[test]
fn trim_replaced_trims_a_text_and_keeps_nothing() {
    assert_eq!(trim_replaced(Some(" Rynek \n".to_string())), Some("Rynek".to_string()));
    assert_eq!(trim_replaced(Some(String::new())), Some(String::new()));
    assert_eq!(trim_replaced(None), None);
}

#[test]
fn clean_name_succeeds_on_every_kind_of_name() {
    for name in ["", "Rynek", "(", "*(", "Rynek *(a)", "\u{141}\u{f3}d\u{17a} (Fabryczna)"] {
        assert!(clean_name(name).is_some());
    }
    assert_eq!(cleaned("\u{141}\u{f3}d\u{17a} (Fabryczna)"), "\u{141}\u{f3}d\u{17a}");
}
