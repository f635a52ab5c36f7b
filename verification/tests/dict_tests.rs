use harper_py::dict::{MergedDictionary, WordList, WordMeta};

fn w(s: &str) -> Vec<char> {
    s.chars().collect()
}

fn meta(noun: bool, verb: bool, adjective: bool) -> WordMeta {
    WordMeta { noun, verb, adjective }
}

#[test]
fn precedence_earlier_layer_wins() {
    let meta1 = meta(true, false, false);
    let meta2 = meta(false, true, false);

    let mut d1 = WordList::new();
    d1.add_word(w("color"), meta1);
    let mut d2 = WordList::new();
    d2.add_word(w("color"), meta2);

    let mut merged = MergedDictionary::new();
    merged.add_dictionary(d1);
    merged.add_dictionary(d2);

    assert_eq!(merged.metadata(&w("color")), Some(meta1));
}

#[test]
fn union_membership_over_layers() {
    let mut d1 = WordList::new();
    d1.add_word(w("color"), WordMeta::default());
    let mut d2 = WordList::new();
    d2.add_word(w("colour"), WordMeta::default());

    let mut merged = MergedDictionary::new();
    merged.add_dictionary(d1);
    merged.add_dictionary(d2);

    assert!(merged.contains(&w("color")));
    assert!(merged.contains(&w("colour")));
    assert!(!merged.contains(&w("colr")));
}

#[test]
fn metadata_none_when_unknown() {
    let mut d1 = WordList::new();
    d1.add_word(w("color"), WordMeta::default());
    let mut merged = MergedDictionary::new();
    merged.add_dictionary(d1);

    assert_eq!(merged.metadata(&w("colour")), None);
    assert!(!merged.contains(&w("colour")));
}

#[test]
fn empty_layer_changes_nothing() {
    let mut d1 = WordList::new();
    d1.add_word(w("color"), meta(true, false, false));

    let mut merged = MergedDictionary::new();
    merged.add_dictionary(WordList::new());
    merged.add_dictionary(d1);

    assert_eq!(merged.metadata(&w("color")), Some(meta(true, false, false)));
}

#[test]
fn first_entry_wins_inside_one_layer() {
    let mut d = WordList::new();
    d.add_word(w("lead"), meta(true, false, false));
    d.add_word(w("lead"), meta(false, true, false));

    assert_eq!(d.metadata(&w("lead")), Some(meta(true, false, false)));
    assert!(d.contains(&w("lead")));
}

#[test]
fn from_words_gives_empty_metadata() {
    let wl = WordList::from_words(vec![w("colour"), w("flavour")]);
    assert_eq!(wl.metadata(&w("colour")), Some(WordMeta::default()));
    assert_eq!(wl.metadata(&w("flavour")), Some(WordMeta::default()));
    assert_eq!(wl.metadata(&w("color")), None);
}
