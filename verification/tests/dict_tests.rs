use phone_encoder::dict::load_dict;

fn words(list: &[&str]) -> Vec<String> {
    list.iter().map(|w| w.to_string()).collect()
}

#[test]
fn buckets_hold_exactly_the_encoding_words() {
    let d = load_dict(&words(&["an", "blau", "Bo\"", "da"]));
    assert_eq!(d.get(&vec![5, 1]), Some(&words(&["an"])));
    assert_eq!(d.get(&vec![7, 8, 5, 7]), Some(&words(&["blau"])));
    assert_eq!(d.get(&vec![7, 8]), Some(&words(&["Bo\""])));
    assert_eq!(d.get(&vec![3, 5]), Some(&words(&["da"])));
    assert_eq!(d.get(&vec![9]), None);
    assert_eq!(d.get(&vec![5]), None);
}

#[test]
fn bucket_keeps_word_list_order() {
    // "mir" and "air" share the key 562
    let d = load_dict(&words(&["mir", "air"]));
    assert_eq!(d.get(&vec![5, 6, 2]), Some(&words(&["mir", "air"])));
    let d2 = load_dict(&words(&["air", "mir"]));
    assert_eq!(d2.get(&vec![5, 6, 2]), Some(&words(&["air", "mir"])));
}

#[test]
fn duplicate_words_stay() {
    let d = load_dict(&words(&["an", "an"]));
    assert_eq!(d.get(&vec![5, 1]), Some(&words(&["an", "an"])));
}

#[test]
fn letterless_word_lands_in_the_empty_key_bucket() {
    let d = load_dict(&words(&["-\"-"]));
    assert_eq!(d.get(&Vec::new()), Some(&words(&["-\"-"])));
}

#[test]
fn empty_word_list_has_no_buckets() {
    let d = load_dict(&Vec::new());
    assert_eq!(d.get(&vec![5]), None);
    assert_eq!(d.get(&Vec::new()), None);
}
