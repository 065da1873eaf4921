use informer::label_map::LabelMap;
use informer::update::{section_handler, update_markdown};

fn strings(items: &[&str]) -> Vec<String> {
    items.iter().map(|i| i.to_string()).collect()
}

fn scripts() -> LabelMap<Vec<String>> {
    let mut directories: LabelMap<Vec<String>> = LabelMap::new();
    directories.insert(
        "Scripts".to_owned(),
        strings(&["./scripts/a.html", "./scripts/b.html"]),
    );
    directories
}

#[test]
fn linked_file_is_not_added_again() {
    let lines = strings(&["[a.html](./x/a.html)"]);
    let mut md: Vec<String> = Vec::new();
    let mut directories: LabelMap<Vec<String>> = LabelMap::new();
    directories.insert("x".to_owned(), strings(&["./x/a.html", "./x/b.html"]));
    section_handler(&lines, &"x".to_owned(), &mut md, &directories);
    assert_eq!(
        md,
        strings(&[
            "[a.html](./x/a.html)",
            "<!---x--->\n",
            "[b.html](./x/b.html) | Description\n",
            "<!---/x--->\n",
        ])
    );
}

#[test]
fn written_rows_count_as_links() {
    let lines = strings(&[
        "File | Notes",
        "--- | ---",
        "[a.html](./scripts/a.html) | Description",
        "[b.html](./scripts/b.html) | Description",
    ]);
    let mut md: Vec<String> = Vec::new();
    section_handler(&lines, &"Scripts".to_owned(), &mut md, &scripts());
    assert_eq!(
        md,
        strings(&[
            "File | Notes",
            "<!---Scripts--->\n",
            "--- | ---",
            "[a.html](./scripts/a.html) | Description",
            "[b.html](./scripts/b.html) | Description",
            "<!---/Scripts--->\n",
        ])
    );
}

#[test]
fn unlinked_files_of_a_directory_get_rows() {
    let lines = strings(&["## Scripts", "[c.html](./scripts/c.html)"]);
    let mut md = strings(&["# Title"]);
    section_handler(&lines, &"Scripts".to_owned(), &mut md, &scripts());
    assert_eq!(
        md,
        strings(&[
            "# Title",
            "## Scripts",
            "<!---Scripts--->\n",
            "[c.html](./scripts/c.html)",
            "[a.html](./scripts/a.html) | Description\n",
            "[b.html](./scripts/b.html) | Description\n",
            "<!---/Scripts--->\n",
        ])
    );
}

#[test]
fn section_of_another_label_is_kept() {
    let lines = strings(&["one", "two"]);
    let mut md: Vec<String> = Vec::new();
    section_handler(&lines, &"Other".to_owned(), &mut md, &scripts());
    assert_eq!(
        md,
        strings(&["one", "<!---Other--->\n", "two", "<!---/Other--->\n"])
    );
}

#[test]
fn index_without_sections_is_unchanged() {
    let lines = strings(&["# Title", "", "<---Scripts--->", "text"]);
    assert_eq!(update_markdown(&lines, &scripts()), Some(lines.clone()));
}

#[test]
fn delimited_section_is_handled_under_its_label() {
    let lines = strings(&[
        "# Title",
        "## Scripts",
        "",
        "<!---Scripts--->",
        "File | Notes",
        "--- | ---",
        "[a.html](./scripts/a.html) | Description",
        "<!---/Scripts--->",
        "end",
    ]);
    let md = update_markdown(&lines, &scripts()).unwrap();
    assert_eq!(
        md,
        strings(&[
            "# Title",
            "## Scripts",
            "",
            "File | Notes",
            "<!---Scripts--->\n",
            "--- | ---",
            "[a.html](./scripts/a.html) | Description",
            "[b.html](./scripts/b.html) | Description\n",
            "<!---/Scripts--->\n",
            "end",
        ])
    );
}

#[test]
fn empty_section_cannot_be_rewritten() {
    let lines = strings(&["<!---x--->", "<!---/x--->"]);
    assert_eq!(update_markdown(&lines, &scripts()), None);
}

#[test]
fn unclosed_section_is_dropped() {
    let lines = strings(&["keep", "<!---x--->", "lost"]);
    assert_eq!(update_markdown(&lines, &scripts()), Some(strings(&["keep"])));
}
