use informer::config::get_default_config;
use informer::label_map::LabelMap;
use informer::utils::{dedup_respectfully, get_default_order};

fn strings(items: &[&str]) -> Vec<String> {
    items.iter().map(|i| i.to_string()).collect()
}

#[test]
fn get_default_config_0() {
    let cfg = get_default_config();

    assert_eq!(cfg.main.title, Some("Title placeholder".to_owned()));
    assert_eq!(cfg.main.notes, Some(true));
}

#[test]
fn dedup_respectfully_0() {
    let this_vec = strings(&["this", "is", "this", "is", "a", "test", "is"]);
    let expected = strings(&["this", "is", "a", "test"]);

    assert_eq!(expected, dedup_respectfully(&this_vec));
}

#[test]
fn dedup_respectfully_1() {
    let this_vec = strings(&["this", "is", "a", "test"]);
    let expected = strings(&["this", "is", "a", "test"]);

    assert_eq!(expected, dedup_respectfully(&this_vec));
}

#[test]
fn get_default_order_0() {
    let mut directories: LabelMap<Vec<String>> = LabelMap::new();
    let mut entities: LabelMap<String> = LabelMap::new();
    let notes: bool = true;

    directories.insert("b".to_owned(), Vec::new());
    directories.insert("d".to_owned(), Vec::new());
    entities.insert("a".to_owned(), String::new());
    entities.insert("c".to_owned(), String::new());
    entities.insert("logo".to_owned(), String::new());

    let expected = strings(&["logo", "title", "notes", "a", "b", "c", "d"]);

    let actual = get_default_order(&directories, &entities, &notes);

    assert_eq!(expected, actual);
}
