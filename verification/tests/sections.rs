use informer::config::{get_default_config, Config, MainCfg};
use informer::label_map::LabelMap;
use informer::utils::{
    entities_of_config, entity_handler, record_directories, generate_markdown, get_default_order, insert_delimiters, is_exports_label,
    try_generate_markdown, write_directory, write_entity, write_logo, write_metadata, write_notes,
    write_title,
};

fn strings(items: &[&str]) -> Vec<String> {
    items.iter().map(|i| i.to_string()).collect()
}

fn empty_main() -> MainCfg {
    MainCfg { title: None, logo: None, notes: None, entities: None, directories: None, order: None }
}

#[test]
fn default_config_holds_the_sample_sections() {
    let cfg = get_default_config();
    assert_eq!(cfg.main.logo, Some("./logo.png".to_owned()));
    assert_eq!(
        cfg.main.entities,
        Some(vec![strings(&["Metadata", "./metadata.tsv"])])
    );
    assert_eq!(
        cfg.main.directories,
        Some(vec![
            strings(&["Pipelines", "./pipelines"]),
            strings(&["Scripts", "./scripts"]),
            strings(&["QIIME2 Exports", "./exports"]),
            strings(&["Notebooks", "./notebooks"]),
        ])
    );
    assert_eq!(
        cfg.main.order,
        Some(strings(&[
            "logo", "title", "notes", "Metadata", "Scripts", "Pipelines", "Notebooks",
            "QIIME2 Exports"
        ]))
    );
}

#[test]
fn delimiters_surround_the_block() {
    let mut lines = strings(&["## Scripts\n\n", "File | Notes\n--- | ---\n", "row\n"]);
    insert_delimiters(&mut lines, "Scripts");
    assert_eq!(
        lines,
        strings(&[
            "## Scripts\n\n",
            "<!---Scripts--->\n",
            "File | Notes\n--- | ---\n",
            "row\n",
            "<!---/Scripts--->\n"
        ])
    );
}

#[test]
fn delimiters_of_a_one_line_block() {
    let mut lines = strings(&["only\n"]);
    insert_delimiters(&mut lines, "x");
    assert_eq!(lines, strings(&["only\n", "<!---x--->\n", "<!---/x--->\n"]));
}

#[test]
fn title_notes_logo_and_metadata_lines() {
    let mut md: Vec<String> = Vec::new();
    write_title(&mut md, &"My project".to_owned());
    write_notes(&mut md, &false);
    write_notes(&mut md, &true);
    let mut entities: LabelMap<String> = LabelMap::new();
    entities.insert("logo".to_owned(), "./img/logo.png".to_owned());
    entities.insert("Metadata".to_owned(), "./metadata.tsv".to_owned());
    write_logo(&mut md, &entities);
    write_metadata(&mut md, &entities);
    assert_eq!(
        md,
        strings(&[
            "# My project\n\n",
            "## Notes\n* This is a note\n\n",
            "<p align='center'>\n\t<img src='./img/logo.png'/>\n</p>\n\n",
            "## Metadata\n[This](./metadata.tsv) is the metadata that was used\n",
        ])
    );
}

#[test]
fn entity_section_links_its_file_by_name() {
    let mut md: Vec<String> = Vec::new();
    let mut entities: LabelMap<String> = LabelMap::new();
    entities.insert("Report".to_owned(), "./results/report.html".to_owned());
    write_entity(&mut md, &entities, "Report");
    assert_eq!(
        md,
        strings(&["## Report\n[report.html](./results/report.html) Description\n"])
    );
}

#[test]
fn directory_section_lists_its_files() {
    let mut md = strings(&["before\n"]);
    let mut directories: LabelMap<Vec<String>> = LabelMap::new();
    directories.insert(
        "Scripts".to_owned(),
        strings(&["./scripts/a.html", "./scripts/sub/b.html"]),
    );
    let ext: LabelMap<String> = LabelMap::new();
    write_directory(&mut md, &directories, &ext, "Scripts");
    assert_eq!(
        md,
        strings(&[
            "before\n",
            "## Scripts\n\n",
            "<!---Scripts--->\n",
            "File | Notes\n--- | ---\n",
            "[a.html](./scripts/a.html) | Description\n",
            "[b.html](./scripts/sub/b.html) | Description\n",
            "<!---/Scripts--->\n",
        ])
    );
}

#[test]
fn default_order_without_logo_or_notes() {
    let mut directories: LabelMap<Vec<String>> = LabelMap::new();
    let mut entities: LabelMap<String> = LabelMap::new();
    directories.insert("Zeta".to_owned(), Vec::new());
    directories.insert("Alpha".to_owned(), Vec::new());
    entities.insert("Metadata".to_owned(), "./m.tsv".to_owned());
    entities.insert("Alpha".to_owned(), "./alpha.txt".to_owned());
    let order = get_default_order(&directories, &entities, &false);
    assert_eq!(order, strings(&["title", "Alpha", "Alpha", "Metadata", "Zeta"]));
}

#[test]
fn default_order_sorts_by_code_point() {
    let mut directories: LabelMap<Vec<String>> = LabelMap::new();
    let entities: LabelMap<String> = LabelMap::new();
    for label in ["b", "B", "ab", "a", "é", "Z"] {
        directories.insert(label.to_owned(), Vec::new());
    }
    let order = get_default_order(&directories, &entities, &true);
    let mut expected = strings(&["b", "B", "ab", "a", "é", "Z"]);
    expected.sort();
    let mut full = strings(&["title", "notes"]);
    full.extend(expected);
    assert_eq!(order, full);
}

#[test]
fn later_entities_override_earlier_ones() {
    let mut map: LabelMap<String> = LabelMap::new();
    map.insert("logo".to_owned(), "./logo.png".to_owned());
    let entries = vec![
        strings(&["Metadata", "./one.tsv"]),
        strings(&["Report", "./r.html"]),
        strings(&["Metadata", "./two.tsv"]),
    ];
    entity_handler(&entries, &mut map);
    assert_eq!(map.get(&"Metadata".to_owned()), Some(&"./two.tsv".to_owned()));
    assert_eq!(map.get(&"Report".to_owned()), Some(&"./r.html".to_owned()));
    assert_eq!(map.get(&"logo".to_owned()), Some(&"./logo.png".to_owned()));
    assert_eq!(map.keys(), strings(&["logo", "Metadata", "Report"]));
}

#[test]
fn exports_label() {
    assert!(is_exports_label(&"QIIME2 Exports".to_owned()));
    assert!(!is_exports_label(&"QIIME2 exports".to_owned()));
}

fn sample_maps() -> (LabelMap<Vec<String>>, LabelMap<String>) {
    let mut directories: LabelMap<Vec<String>> = LabelMap::new();
    directories.insert("Scripts".to_owned(), strings(&["./scripts/run.html"]));
    let mut entities: LabelMap<String> = LabelMap::new();
    entities.insert("logo".to_owned(), "./logo.png".to_owned());
    entities.insert("Metadata".to_owned(), "./metadata.tsv".to_owned());
    (directories, entities)
}

#[test]
fn markdown_in_default_order() {
    let (directories, entities) = sample_maps();
    let ext: LabelMap<String> = LabelMap::new();
    let cfg = Config { main: empty_main() };
    let md = generate_markdown(cfg, &directories, &entities, &ext);
    assert_eq!(
        md,
        strings(&[
            "<p align='center'>\n\t<img src='./logo.png'/>\n</p>\n\n",
            "# Title\n\n",
            "## Notes\n* This is a note\n\n",
            "## Metadata\n[This](./metadata.tsv) is the metadata that was used\n",
            "## Scripts\n\n",
            "<!---Scripts--->\n",
            "File | Notes\n--- | ---\n",
            "[run.html](./scripts/run.html) | Description\n",
            "<!---/Scripts--->\n",
        ])
    );
}

#[test]
fn markdown_in_configured_order() {
    let (directories, entities) = sample_maps();
    let ext: LabelMap<String> = LabelMap::new();
    let mut main = empty_main();
    main.title = Some("Study".to_owned());
    main.notes = Some(false);
    main.order = Some(strings(&["title", "unknown", "notes", "title", "Metadata"]));
    let md = generate_markdown(Config { main }, &directories, &entities, &ext);
    assert_eq!(
        md,
        strings(&[
            "# Study\n\n",
            "## Metadata\n[This](./metadata.tsv) is the metadata that was used\n",
        ])
    );
}

#[test]
fn markdown_refused_without_the_logo_asked_for() {
    let directories: LabelMap<Vec<String>> = LabelMap::new();
    let entities: LabelMap<String> = LabelMap::new();
    let ext: LabelMap<String> = LabelMap::new();
    let mut main = empty_main();
    main.order = Some(strings(&["logo", "title"]));
    assert_eq!(try_generate_markdown(Config { main }, &directories, &entities, &ext), None);
}

#[test]
fn markdown_refused_for_a_file_without_a_name() {
    let mut directories: LabelMap<Vec<String>> = LabelMap::new();
    directories.insert("Odd".to_owned(), strings(&["./scripts/.."]));
    let entities: LabelMap<String> = LabelMap::new();
    let ext: LabelMap<String> = LabelMap::new();
    let cfg = Config { main: empty_main() };
    assert_eq!(try_generate_markdown(cfg, &directories, &entities, &ext), None);
}

#[test]
fn markdown_checked_and_written() {
    let (directories, entities) = sample_maps();
    let ext: LabelMap<String> = LabelMap::new();
    let mut main = empty_main();
    main.order = Some(strings(&["Scripts", "logo"]));
    let md = try_generate_markdown(Config { main }, &directories, &entities, &ext).unwrap();
    assert_eq!(md.len(), 6);
    assert_eq!(md[0], "## Scripts\n\n");
    assert_eq!(md[5], "<p align='center'>\n\t<img src='./logo.png'/>\n</p>\n\n");
}

#[test]
fn later_directories_override_earlier_ones() {
    let mut map: LabelMap<Vec<String>> = LabelMap::new();
    let entries = vec![
        strings(&["Scripts", "./scripts"]),
        strings(&["Notebooks", "./notebooks"]),
        strings(&["Scripts", "./more_scripts"]),
    ];
    let files = vec![
        strings(&["./scripts/a.html"]),
        strings(&["./notebooks/n.html", "./notebooks/m.html"]),
        strings(&["./more_scripts/b.html"]),
    ];
    record_directories(&entries, files, &mut map);
    assert_eq!(map.get(&"Scripts".to_owned()), Some(&strings(&["./more_scripts/b.html"])));
    assert_eq!(
        map.get(&"Notebooks".to_owned()),
        Some(&strings(&["./notebooks/n.html", "./notebooks/m.html"]))
    );
    assert_eq!(map.keys(), strings(&["Scripts", "Notebooks"]));
}

#[test]
fn unknown_label_in_the_order_is_skipped() {
    let (directories, entities) = sample_maps();
    let ext: LabelMap<String> = LabelMap::new();
    let mut main = empty_main();
    main.order = Some(strings(&["title", "Scripts"]));
    let plain = generate_markdown(Config { main }, &directories, &entities, &ext);
    let mut main = empty_main();
    main.order = Some(strings(&["nothing", "title", "elsewhere", "Scripts", "nothing"]));
    let with_unknown = generate_markdown(Config { main }, &directories, &entities, &ext);
    assert_eq!(plain, with_unknown);
}

#[test]
fn explicit_default_order_gives_the_same_index() {
    let (directories, entities) = sample_maps();
    let ext: LabelMap<String> = LabelMap::new();
    let implicit = generate_markdown(Config { main: empty_main() }, &directories, &entities, &ext);
    let mut main = empty_main();
    main.order = Some(get_default_order(&directories, &entities, &true));
    let explicit = generate_markdown(Config { main }, &directories, &entities, &ext);
    assert_eq!(implicit, explicit);
}

#[test]
fn entity_named_logo_replaces_the_configured_logo() {
    let mut main = empty_main();
    main.logo = Some("./logo.png".to_owned());
    main.entities = Some(vec![
        strings(&["Metadata", "./m.tsv"]),
        strings(&["logo", "./other.png"]),
    ]);
    let map = entities_of_config(&main);
    assert_eq!(map.get(&"logo".to_owned()), Some(&"./other.png".to_owned()));
    assert_eq!(map.get(&"Metadata".to_owned()), Some(&"./m.tsv".to_owned()));
    assert_eq!(map.keys(), strings(&["logo", "Metadata"]));
}

#[test]
fn configured_logo_without_entities() {
    let mut main = empty_main();
    main.logo = Some("./logo.png".to_owned());
    let map = entities_of_config(&main);
    assert_eq!(map.keys(), strings(&["logo"]));
    let empty = entities_of_config(&empty_main());
    assert_eq!(empty.keys(), Vec::<String>::new());
}
