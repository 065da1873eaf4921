//! The text of an index: the order of its sections and the lines that each
//! section is written as.
use vstd::prelude::*;
use vstd::relations::*;

use crate::config::{Config, MainCfg};
use crate::label_map::LabelMap;
use crate::paths::{file_name, path_file_name};
use crate::text::{
    contains_label, label_order, lemma_distinct_same_multiset, lemma_label_order_total,
    lemma_set_to_seq_distinct, sort_labels, views,
};

verus! {

// ---------------------------------------------------------------------------
// Section text
// ---------------------------------------------------------------------------

/// The line that opens the delimited block of a section.
pub open spec fn open_delimiter(label: Seq<char>) -> Seq<char> {
    "<!---"@ + label + "--->\n"@
}

/// The line that closes the delimited block of a section.
pub open spec fn close_delimiter(label: Seq<char>) -> Seq<char> {
    "<!---/"@ + label + "--->\n"@
}

/// `lines` with the opening delimiter of `label` after its first line and
/// the closing delimiter at its end.
pub open spec fn with_delimiters(lines: Seq<Seq<char>>, label: Seq<char>) -> Seq<Seq<char>> {
    lines.insert(1, open_delimiter(label)).push(close_delimiter(label))
}

/// The title line.
pub open spec fn title_line(title: Seq<char>) -> Seq<char> {
    "# "@ + title + "\n\n"@
}

/// The notes section.
pub open spec fn notes_line() -> Seq<char> {
    "## Notes\n* This is a note\n\n"@
}

/// The logo, centred.
pub open spec fn logo_line(path: Seq<char>) -> Seq<char> {
    "<p align='center'>\n\t<img src='"@ + path + "'/>\n</p>\n\n"@
}

/// The metadata section.
pub open spec fn metadata_line(path: Seq<char>) -> Seq<char> {
    "## Metadata\n[This]("@ + path + ") is the metadata that was used\n"@
}

/// The section of an entity: a heading and a link to its file.
pub open spec fn entity_line(label: Seq<char>, name: Seq<char>, path: Seq<char>) -> Seq<char> {
    "## "@ + label + "\n["@ + name + "]("@ + path + ") Description\n"@
}

/// The heading of a directory section.
pub open spec fn directory_heading(label: Seq<char>) -> Seq<char> {
    "## "@ + label + "\n\n"@
}

/// The header of the table of files of a directory section.
pub open spec fn file_table_header() -> Seq<char> {
    "File | Notes\n--- | ---\n"@
}

/// The row of a file in the table of a directory section.
pub open spec fn file_row(name: Seq<char>, path: Seq<char>) -> Seq<char> {
    "["@ + name + "]("@ + path + ") | Description\n"@
}

/// The file name of a path that has one.
pub open spec fn name_of(path: Seq<char>) -> Seq<char> {
    path_file_name(path)->Some_0
}

/// Every path of `paths` has a file name.
pub open spec fn all_named(paths: Seq<Seq<char>>) -> bool {
    forall|i: int| 0 <= i < paths.len() ==> (#[trigger] path_file_name(paths[i])) is Some
}

/// The table rows of the files at `paths`.
pub open spec fn file_rows(paths: Seq<Seq<char>>) -> Seq<Seq<char>> {
    paths.map_values(|p: Seq<char>| file_row(name_of(p), p))
}

/// The lines of the section of directory `label` whose files are at `paths`.
pub open spec fn directory_lines(label: Seq<char>, paths: Seq<Seq<char>>) -> Seq<Seq<char>> {
    with_delimiters(
        seq![directory_heading(label), file_table_header()] + file_rows(paths),
        label,
    )
}

// ---------------------------------------------------------------------------
// Building text
// ---------------------------------------------------------------------------

/// `a`, `b` and `c` one after the other.
fn join3(a: &str, b: &str, c: &str) -> (r: String)
    ensures
        r@ == a@ + b@ + c@,
{
    let mut r = String::from_str(a);
    r.append(b);
    r.append(c);
    r
}

/// `a` to `e` one after the other.
fn join5(a: &str, b: &str, c: &str, d: &str, e: &str) -> (r: String)
    ensures
        r@ == a@ + b@ + c@ + d@ + e@,
{
    let mut r = String::from_str(a);
    r.append(b);
    r.append(c);
    r.append(d);
    r.append(e);
    r
}

// ---------------------------------------------------------------------------
// Writing sections
// ---------------------------------------------------------------------------

/// Marks the block of section `label`: its opening delimiter goes after the
/// first line, its closing delimiter after the last.
pub fn insert_delimiters(lines: &mut Vec<String>, label: &str)
    requires
        old(lines)@.len() >= 1,
    ensures
        views(final(lines)@) == with_delimiters(views(old(lines)@), label@),
{
    let ghost before = lines@;
    lines.insert(1, join3("<!---", label, "--->\n"));
    let ghost middle = lines@;
    lines.push(join3("<!---/", label, "--->\n"));
    proof {
        assert(views(middle) =~= views(before).insert(1, open_delimiter(label@)));
        assert(views(lines@) =~= views(middle).push(close_delimiter(label@)));
    }
}

/// Appends the notes section, if `notes` is set.
pub fn write_notes(markdown: &mut Vec<String>, notes: &bool)
    ensures
        views(final(markdown)@) == views(old(markdown)@) + if *notes {
            seq![notes_line()]
        } else {
            Seq::empty()
        },
{
    let ghost before = markdown@;
    if *notes {
        markdown.push(String::from_str("## Notes\n* This is a note\n\n"));
        assert(views(markdown@) =~= views(before) + seq![notes_line()]);
    } else {
        assert(views(markdown@) =~= views(before) + Seq::empty());
    }
}

/// Appends the title line.
pub fn write_title(markdown: &mut Vec<String>, title: &String)
    ensures
        views(final(markdown)@) == views(old(markdown)@) + seq![title_line(title@)],
{
    let ghost before = markdown@;
    markdown.push(join3("# ", title.as_str(), "\n\n"));
    assert(views(markdown@) =~= views(before) + seq![title_line(title@)]);
}

/// Appends the metadata section, which links to the file of the entity
/// `Metadata`.
pub fn write_metadata(markdown: &mut Vec<String>, entities: &LabelMap<String>)
    requires
        entities@.dom().contains("Metadata"@),
    ensures
        views(final(markdown)@) == views(old(markdown)@) + seq![
            metadata_line(entities@["Metadata"@]@),
        ],
{
    let key = String::from_str("Metadata");
    let metadata = entities.get(&key).unwrap();
    let ghost before = markdown@;
    markdown.push(join3("## Metadata\n[This](", metadata.as_str(), ") is the metadata that was used\n"));
    assert(views(markdown@) =~= views(before) + seq![metadata_line(entities@["Metadata"@]@)]);
}

/// Appends the logo, the image of the entity `logo`.
pub fn write_logo(markdown: &mut Vec<String>, entities: &LabelMap<String>)
    requires
        entities@.dom().contains("logo"@),
    ensures
        views(final(markdown)@) == views(old(markdown)@) + seq![logo_line(entities@["logo"@]@)],
{
    let key = String::from_str("logo");
    let logo = entities.get(&key).unwrap();
    let ghost before = markdown@;
    markdown.push(join3("<p align='center'>\n\t<img src='", logo.as_str(), "'/>\n</p>\n\n"));
    assert(views(markdown@) =~= views(before) + seq![logo_line(entities@["logo"@]@)]);
}

/// Appends the section of entity `label`: a heading and a link to its file.
pub fn write_entity(markdown: &mut Vec<String>, entities: &LabelMap<String>, label: &str)
    requires
        entities@.dom().contains(label@),
        path_file_name(entities@[label@]@) is Some,
    ensures
        views(final(markdown)@) == views(old(markdown)@) + seq![
            entity_line(label@, name_of(entities@[label@]@), entities@[label@]@),
        ],
{
    let key = String::from_str(label);
    let item = entities.get(&key).unwrap();
    let name = file_name(item.as_str()).unwrap();
    let mut line = join5("## ", label, "\n[", name.as_str(), "](");
    line.append(item.as_str());
    line.append(") Description\n");
    let ghost before = markdown@;
    markdown.push(line);
    assert(views(markdown@) =~= views(before) + seq![
        entity_line(label@, name_of(entities@[label@]@), entities@[label@]@),
    ]);
}

/// Appends the section of directory `label`: a heading, then a table with a
/// row for each of its files, marked with the delimiters of the section.
pub fn write_directory(
    markdown: &mut Vec<String>,
    directories: &LabelMap<Vec<String>>,
    extension_map: &LabelMap<String>,
    label: &str,
)
    requires
        directories@.dom().contains(label@),
        all_named(views(directories@[label@]@)),
    ensures
        views(final(markdown)@) == views(old(markdown)@) + directory_lines(
            label@,
            views(directories@[label@]@),
        ),
{
    let key = String::from_str(label);
    let paths = directories.get(&key).unwrap();
    let ghost pv = views(paths@);
    let mut lines: Vec<String> = Vec::new();
    lines.push(join3("## ", label, "\n\n"));
    lines.push(String::from_str("File | Notes\n--- | ---\n"));
    let ghost head = views(lines@);
    let n = paths.len();
    let mut i: usize = 0;
    while i < n
        invariant
            n == paths@.len(),
            pv == views(paths@),
            all_named(pv),
            i <= n,
            views(lines@) == head + file_rows(pv.take(i as int)),
        decreases n - i,
    {
        let path = &paths[i];
        assert(pv[i as int] == path@);
        assert(path_file_name(pv[i as int]) is Some);
        let name = file_name(path.as_str()).unwrap();
        let row = join5("[", name.as_str(), "](", path.as_str(), ") | Description\n");
        let ghost prev = lines@;
        lines.push(row);
        proof {
            assert(pv.take(i + 1) =~= pv.take(i as int).push(path@));
            assert(file_rows(pv.take(i + 1)) =~= file_rows(pv.take(i as int)).push(
                file_row(name_of(path@), path@),
            ));
            assert(views(lines@) =~= views(prev).push(file_row(name_of(path@), path@)));
        }
        i = i + 1;
    }
    assert(pv.take(n as int) =~= pv);
    assert(head =~= seq![directory_heading(label@), file_table_header()]);
    insert_delimiters(&mut lines, label);
    let ghost before = markdown@;
    let ghost block = lines@;
    markdown.append(&mut lines);
    assert(views(markdown@) =~= views(before) + views(block));
}

// ---------------------------------------------------------------------------
// Order of the sections
// ---------------------------------------------------------------------------

/// The labels of `s`, each at its first occurrence, in the order of `s`.
pub open spec fn first_occurrences(s: Seq<Seq<char>>) -> Seq<Seq<char>>
    decreases s.len(),
{
    if s.len() == 0 {
        s
    } else {
        let d = first_occurrences(s.drop_last());
        if d.contains(s.last()) {
            d
        } else {
            d.push(s.last())
        }
    }
}

/// Keeps the first occurrence of each label and drops the later ones; the
/// labels kept stay in their order.
pub fn dedup_respectfully(slice_in: &[String]) -> (out: Vec<String>)
    ensures
        views(out@) == first_occurrences(views(slice_in@)),
{
    let mut out: Vec<String> = Vec::new();
    let n = slice_in.len();
    let mut i: usize = 0;
    while i < n
        invariant
            n == slice_in@.len(),
            i <= n,
            views(out@) == first_occurrences(views(slice_in@).take(i as int)),
        decreases n - i,
    {
        let item = &slice_in[i];
        let ghost prefix = views(slice_in@).take(i as int);
        proof {
            assert(views(slice_in@).take(i + 1).drop_last() =~= prefix);
            assert(views(slice_in@).take(i + 1).last() == item@);
        }
        if !contains_label(&out, item) {
            let ghost before = out@;
            out.push(item.clone());
            assert(views(out@) =~= views(before).push(item@));
        }
        i = i + 1;
    }
    assert(views(slice_in@).take(n as int) =~= views(slice_in@));
    out
}

/// The sections other than logo, title and notes: the directories, and the
/// entities but the logo, in lexicographic order (a label that is both a
/// directory and an entity occurs twice).
pub open spec fn sorted_sections(directories: Set<Seq<char>>, entities: Set<Seq<char>>) -> Seq<
    Seq<char>,
> {
    (directories.to_seq() + entities.remove("logo"@).to_seq()).sort_by(label_order())
}

/// The order of the sections where the configuration gives none: the logo if
/// there is one, the title, the notes if they are wanted, then the other
/// sections in lexicographic order.
pub open spec fn default_order(
    directories: Set<Seq<char>>,
    entities: Set<Seq<char>>,
    notes: bool,
) -> Seq<Seq<char>> {
    (if entities.contains("logo"@) {
        seq!["logo"@]
    } else {
        Seq::empty()
    }) + seq!["title"@] + (if notes {
        seq!["notes"@]
    } else {
        Seq::empty()
    }) + sorted_sections(directories, entities)
}

/// The labels in `sorted` are those of the two sets, each once per set that
/// holds it, in lexicographic order.
proof fn lemma_sorted_sections(
    sorted: Seq<Seq<char>>,
    dir_labels: Seq<Seq<char>>,
    entity_labels: Seq<Seq<char>>,
    directories: Set<Seq<char>>,
    entities: Set<Seq<char>>,
)
    requires
        sorted_by(sorted, label_order()),
        sorted.to_multiset() == (dir_labels + entity_labels).to_multiset(),
        dir_labels.no_duplicates(),
        entity_labels.no_duplicates(),
        dir_labels.to_set() == directories,
        entity_labels.to_set() == entities.remove("logo"@),
        directories.finite(),
        entities.finite(),
    ensures
        sorted == sorted_sections(directories, entities),
{
    let e = entities.remove("logo"@);
    let listed = directories.to_seq() + e.to_seq();
    lemma_label_order_total();
    listed.lemma_sort_by_ensures(label_order());
    lemma_set_to_seq_distinct(directories);
    lemma_set_to_seq_distinct(e);
    lemma_distinct_same_multiset(dir_labels, directories.to_seq());
    lemma_distinct_same_multiset(entity_labels, e.to_seq());
    vstd::seq_lib::lemma_multiset_commutative(dir_labels, entity_labels);
    vstd::seq_lib::lemma_multiset_commutative(directories.to_seq(), e.to_seq());
    vstd::seq_lib::lemma_sorted_unique(sorted, listed.sort_by(label_order()), label_order());
}

/// The order of the sections where the configuration gives none: the logo
/// if there is one, the title, the notes if `notes` is set, then every
/// directory and every entity but the logo, in lexicographic order.
pub fn get_default_order(
    directories: &LabelMap<Vec<String>>,
    entities: &LabelMap<String>,
    notes: &bool,
) -> (order: Vec<String>)
    ensures
        views(order@) == default_order(directories@.dom(), entities@.dom(), *notes),
{
    let mut order: Vec<String> = Vec::new();
    let logo = String::from_str("logo");
    if entities.contains_key(&logo) {
        order.push(String::from_str("logo"));
    }
    order.push(String::from_str("title"));
    if *notes {
        order.push(String::from_str("notes"));
    }

    let mut remaining: Vec<String> = directories.keys();
    let entity_labels: Vec<String> = entities.keys();
    let ghost dir_labels = views(remaining@);
    let ghost el = views(entity_labels@);
    let ghost mut kept: Seq<Seq<char>> = Seq::empty();
    let n = entity_labels.len();
    let mut j: usize = 0;
    while j < n
        invariant
            n == entity_labels@.len(),
            el == views(entity_labels@),
            el.no_duplicates(),
            logo@ == "logo"@,
            j <= n,
            views(remaining@) == dir_labels + kept,
            kept.no_duplicates(),
            kept.to_set() == el.take(j as int).to_set().remove("logo"@),
        decreases n - j,
    {
        let label = &entity_labels[j];
        proof {
            assert(el.take(j + 1) =~= el.take(j as int).push(label@));
            el.take(j as int).lemma_push_to_set_commute(label@);
        }
        if *label != logo {
            let ghost before = remaining@;
            remaining.push(label.clone());
            proof {
                assert(!kept.contains(label@)) by {
                    if kept.contains(label@) {
                        assert(kept.to_set().contains(label@));
                        let i = choose|i: int| 0 <= i < j && el.take(j as int)[i] == label@;
                        assert(el[i] == el[j as int]);
                    }
                }
                let k2 = kept.push(label@);
                assert(k2.no_duplicates()) by {
                    assert forall|p: int, q: int| 0 <= p < k2.len() && 0 <= q < k2.len() && p != q
                        implies k2[p] != k2[q] by {
                        if p < kept.len() && q < kept.len() {
                            assert(kept[p] != kept[q]);
                        } else if p < kept.len() {
                            assert(kept.contains(kept[p]));
                        } else {
                            assert(kept.contains(kept[q]));
                        }
                    }
                }
                kept.lemma_push_to_set_commute(label@);
                assert(k2.to_set() =~= el.take(j + 1).to_set().remove("logo"@));
                kept = k2;
                assert(views(remaining@) =~= views(before).push(label@));
            }
        } else {
            proof {
                assert(kept.to_set() =~= el.take(j + 1).to_set().remove("logo"@));
            }
        }
        j = j + 1;
    }
    proof {
        assert(el.take(n as int) =~= el);
    }
    let sorted = sort_labels(remaining);
    proof {
        lemma_sorted_sections(
            views(sorted@),
            dir_labels,
            kept,
            directories@.dom(),
            entities@.dom(),
        );
    }
    let ghost before = views(order@);
    let m = sorted.len();
    let mut i: usize = 0;
    while i < m
        invariant
            m == sorted@.len(),
            i <= m,
            views(order@) == before + views(sorted@).take(i as int),
        decreases m - i,
    {
        let ghost prev = order@;
        order.push(sorted[i].clone());
        assert(views(sorted@).take(i + 1) =~= views(sorted@).take(i as int).push(sorted@[i as int]@));
        assert(views(order@) =~= views(prev).push(sorted@[i as int]@));
        i = i + 1;
    }
    assert(views(sorted@).take(m as int) =~= views(sorted@));
    assert(views(order@) =~= default_order(directories@.dom(), entities@.dom(), *notes));
    order
}

// ---------------------------------------------------------------------------
// Entities and directories of the configuration
// ---------------------------------------------------------------------------

/// Every entry of `entries` is a `[label, path]` pair.
pub open spec fn all_pairs(entries: Seq<Vec<String>>) -> bool {
    forall|i: int| 0 <= i < entries.len() ==> (#[trigger] entries[i])@.len() == 2
}

/// `map` after each `[label, path]` pair of `entries`, in turn, has given
/// its label its path.
pub open spec fn with_entities(map: Map<Seq<char>, String>, entries: Seq<Vec<String>>) -> Map<
    Seq<char>,
    String,
>
    decreases entries.len(),
{
    if entries.len() == 0 {
        map
    } else {
        with_entities(map, entries.drop_last()).insert(
            entries.last()@[0]@,
            entries.last()@[1],
        )
    }
}

/// Adds the entities of the configuration, given as `[label, path]` pairs,
/// to `entities_map`; a later pair overrides an earlier one with its label.
pub fn entity_handler(entities: &Vec<Vec<String>>, entities_map: &mut LabelMap<String>)
    requires
        all_pairs(entities@),
    ensures
        final(entities_map)@ == with_entities(old(entities_map)@, entities@),
{
    let ghost start = entities_map@;
    let n = entities.len();
    let mut i: usize = 0;
    while i < n
        invariant
            n == entities@.len(),
            all_pairs(entities@),
            i <= n,
            entities_map@ == with_entities(start, entities@.take(i as int)),
        decreases n - i,
    {
        let entity = &entities[i];
        assert(entities@[i as int]@.len() == 2);
        let label = entity[0].clone();
        let path = entity[1].clone();
        entities_map.insert(label, path);
        assert(entities@.take(i + 1).drop_last() =~= entities@.take(i as int));
        i = i + 1;
    }
    assert(entities@.take(n as int) =~= entities@);
}

/// `map` after each `[label, path]` pair of `entries`, in turn, has given
/// its label the files found for it, `files` at the same position.
pub open spec fn with_directories(
    map: Map<Seq<char>, Vec<String>>,
    entries: Seq<Vec<String>>,
    files: Seq<Vec<String>>,
) -> Map<Seq<char>, Vec<String>>
    decreases entries.len(),
{
    if entries.len() == 0 {
        map
    } else {
        with_directories(map, entries.drop_last(), files).insert(
            entries.last()@[0]@,
            files[entries.len() - 1],
        )
    }
}

/// Adds the directories of the configuration, given as `[label, path]`
/// pairs, to `directories_map`: each label gets the files found for its
/// directory (`files`, at the same position); a later pair overrides an
/// earlier one with its label.
pub fn record_directories(
    directories: &Vec<Vec<String>>,
    files: Vec<Vec<String>>,
    directories_map: &mut LabelMap<Vec<String>>,
)
    requires
        all_pairs(directories@),
        files@.len() == directories@.len(),
    ensures
        final(directories_map)@ == with_directories(
            old(directories_map)@,
            directories@,
            files@,
        ),
{
    let ghost start = directories_map@;
    let ghost fv = files@;
    let n = directories.len();
    let mut rest = files;
    let mut i: usize = 0;
    while i < n
        invariant
            n == directories@.len(),
            fv.len() == n,
            all_pairs(directories@),
            i <= n,
            rest@ == fv.skip(i as int),
            directories_map@ == with_directories(start, directories@.take(i as int), fv),
        decreases n - i,
    {
        let entry = &directories[i];
        assert(directories@[i as int]@.len() == 2);
        let label = entry[0].clone();
        let f = rest.remove(0);
        assert(f == fv[i as int]);
        assert(rest@ =~= fv.skip(i + 1));
        directories_map.insert(label, f);
        assert(directories@.take(i + 1).drop_last() =~= directories@.take(i as int));
        i = i + 1;
    }
    assert(directories@.take(n as int) =~= directories@);
}

/// The entities of a configuration: the logo, if one is configured, under
/// the label `logo`, then the `[label, path]` pairs in turn (so an entity
/// labelled `logo` replaces the configured logo).
pub open spec fn configured_entities(main: MainCfg) -> Map<Seq<char>, String> {
    let start = match main.logo {
        Some(logo) => Map::<Seq<char>, String>::empty().insert("logo"@, logo),
        None => Map::<Seq<char>, String>::empty(),
    };
    match main.entities {
        Some(entries) => with_entities(start, entries@),
        None => start,
    }
}

/// The entity map of a configuration, as `configured_entities` says.
pub fn entities_of_config(main: &MainCfg) -> (map: LabelMap<String>)
    requires
        main.entities matches Some(entries) ==> all_pairs(entries@),
    ensures
        map@ == configured_entities(*main),
{
    let mut map: LabelMap<String> = LabelMap::new();
    match &main.logo {
        Some(logo) => {
            map.insert(String::from_str("logo"), logo.clone());
        },
        None => {},
    }
    match &main.entities {
        Some(entries) => {
            entity_handler(entries, &mut map);
        },
        None => {},
    }
    map
}

/// Whether `label` is that of the directory of QIIME2 exports, whose HTML
/// files are linked as they are rather than converted.
pub fn is_exports_label(label: &String) -> (b: bool)
    ensures
        b == (label@ == "QIIME2 Exports"@),
{
    is_text(label, "QIIME2 Exports")
}

// ---------------------------------------------------------------------------
// The whole index
// ---------------------------------------------------------------------------

/// The title: the configured one, or `Title`.
pub open spec fn title_of(cfg: MainCfg) -> Seq<char> {
    match cfg.title {
        Some(t) => t@,
        None => "Title"@,
    }
}

/// Whether the notes section is wanted: as configured, or yes.
pub open spec fn notes_of(cfg: MainCfg) -> bool {
    match cfg.notes {
        Some(b) => b,
        None => true,
    }
}

/// The order of the sections: the configured order without repeated labels,
/// or else the default order.
pub open spec fn section_order(
    cfg: MainCfg,
    directories: Map<Seq<char>, Vec<String>>,
    entities: Map<Seq<char>, String>,
) -> Seq<Seq<char>> {
    match cfg.order {
        Some(o) => first_occurrences(views(o@)),
        None => default_order(directories.dom(), entities.dom(), notes_of(cfg)),
    }
}

/// The lines written for the section labelled `item`. The labels `logo`,
/// `title`, `notes` and `Metadata` name the special sections; another label
/// names a directory, else an entity, else nothing.
pub open spec fn section_lines(
    item: Seq<char>,
    title: Seq<char>,
    notes: bool,
    directories: Map<Seq<char>, Vec<String>>,
    entities: Map<Seq<char>, String>,
) -> Seq<Seq<char>> {
    if item == "logo"@ {
        seq![logo_line(entities["logo"@]@)]
    } else if item == "title"@ {
        seq![title_line(title)]
    } else if item == "notes"@ {
        if notes {
            seq![notes_line()]
        } else {
            Seq::empty()
        }
    } else if item == "Metadata"@ {
        seq![metadata_line(entities["Metadata"@]@)]
    } else if directories.dom().contains(item) {
        directory_lines(item, views(directories[item]@))
    } else if entities.dom().contains(item) {
        seq![entity_line(item, name_of(entities[item]@), entities[item]@)]
    } else {
        Seq::empty()
    }
}

/// The lines of the sections of `order`, one section after the other.
pub open spec fn render(
    order: Seq<Seq<char>>,
    title: Seq<char>,
    notes: bool,
    directories: Map<Seq<char>, Vec<String>>,
    entities: Map<Seq<char>, String>,
) -> Seq<Seq<char>>
    decreases order.len(),
{
    if order.len() == 0 {
        Seq::empty()
    } else {
        render(order.drop_last(), title, notes, directories, entities) + section_lines(
            order.last(),
            title,
            notes,
            directories,
            entities,
        )
    }
}

/// The section labelled `item` can be written: the logo and the metadata
/// exist where they are asked for, and every file linked has a file name.
pub open spec fn section_renderable(
    item: Seq<char>,
    directories: Map<Seq<char>, Vec<String>>,
    entities: Map<Seq<char>, String>,
) -> bool {
    if item == "logo"@ {
        entities.dom().contains("logo"@)
    } else if item == "title"@ || item == "notes"@ {
        true
    } else if item == "Metadata"@ {
        entities.dom().contains("Metadata"@)
    } else if directories.dom().contains(item) {
        all_named(views(directories[item]@))
    } else if entities.dom().contains(item) {
        path_file_name(entities[item]@) is Some
    } else {
        true
    }
}

/// Every section of `order` can be written.
pub open spec fn renderable(
    order: Seq<Seq<char>>,
    directories: Map<Seq<char>, Vec<String>>,
    entities: Map<Seq<char>, String>,
) -> bool {
    forall|i: int| 0 <= i < order.len() ==> #[trigger] section_renderable(order[i], directories, entities)
}

/// Whether `s` is the text `lit`.
fn is_text(s: &String, lit: &str) -> (b: bool)
    ensures
        b == (s@ == lit@),
{
    *s == String::from_str(lit)
}

/// The order of the sections that the configuration `main` asks for.
fn section_order_of(
    main: &MainCfg,
    directories: &LabelMap<Vec<String>>,
    entities: &LabelMap<String>,
) -> (order: Vec<String>)
    ensures
        views(order@) == section_order(*main, directories@, entities@),
{
    match &main.order {
        Some(o) => dedup_respectfully(o.as_slice()),
        None => {
            let notes = match main.notes {
                Some(b) => b,
                None => true,
            };
            get_default_order(directories, entities, &notes)
        },
    }
}

/// The Markdown of the index: the sections of the configured order (or of
/// the default order), each written as its label asks.
pub fn generate_markdown(
    config: Config,
    directories: &LabelMap<Vec<String>>,
    entities: &LabelMap<String>,
    extension_map: &LabelMap<String>,
) -> (markdown: Vec<String>)
    requires
        renderable(section_order(config.main, directories@, entities@), directories@, entities@),
    ensures
        views(markdown@) == render(
            section_order(config.main, directories@, entities@),
            title_of(config.main),
            notes_of(config.main),
            directories@,
            entities@,
        ),
{
    let ghost cfg = config.main;
    let order = section_order_of(&config.main, directories, entities);
    let title: String = match config.main.title {
        Some(t) => t,
        None => String::from_str("Title"),
    };
    let notes: bool = match config.main.notes {
        Some(b) => b,
        None => true,
    };
    let ghost ov = views(order@);
    let mut markdown: Vec<String> = Vec::new();
    let n = order.len();
    let mut i: usize = 0;
    while i < n
        invariant
            n == order@.len(),
            ov == views(order@),
            i <= n,
            title@ == title_of(cfg),
            notes == notes_of(cfg),
            renderable(ov, directories@, entities@),
            views(markdown@) == render(ov.take(i as int), title@, notes, directories@, entities@),
        decreases n - i,
    {
        let item = &order[i];
        let ghost before = views(markdown@);
        proof {
            assert(ov[i as int] == item@);
            assert(section_renderable(ov[i as int], directories@, entities@));
            assert(ov.take(i + 1).drop_last() =~= ov.take(i as int));
            assert(ov.take(i + 1).last() == item@);
        }
        if is_text(item, "logo") {
            write_logo(&mut markdown, entities);
        } else if is_text(item, "title") {
            write_title(&mut markdown, &title);
        } else if is_text(item, "notes") {
            write_notes(&mut markdown, &notes);
        } else if is_text(item, "Metadata") {
            write_metadata(&mut markdown, entities);
        } else if directories.contains_key(item) {
            write_directory(&mut markdown, directories, extension_map, item.as_str());
        } else if entities.contains_key(item) {
            write_entity(&mut markdown, entities, item.as_str());
        } else {
            assert(views(markdown@) =~= before + Seq::empty());
        }
        i = i + 1;
    }
    assert(ov.take(n as int) =~= ov);
    markdown
}

/// Whether every file at `paths` has a file name.
pub(crate) fn all_have_names(paths: &Vec<String>) -> (b: bool)
    ensures
        b == all_named(views(paths@)),
{
    let n = paths.len();
    let mut i: usize = 0;
    while i < n
        invariant
            n == paths@.len(),
            i <= n,
            forall|j: int| 0 <= j < i ==> (#[trigger] path_file_name(views(paths@)[j])) is Some,
        decreases n - i,
    {
        if file_name(paths[i].as_str()).is_none() {
            assert(!(path_file_name(views(paths@)[i as int]) is Some));
            return false;
        }
        i = i + 1;
    }
    true
}

/// Whether the section labelled `item` can be written.
fn section_can_be_written(
    item: &String,
    directories: &LabelMap<Vec<String>>,
    entities: &LabelMap<String>,
) -> (b: bool)
    ensures
        b == section_renderable(item@, directories@, entities@),
{
    if is_text(item, "logo") {
        entities.contains_key(item)
    } else if is_text(item, "title") || is_text(item, "notes") {
        true
    } else if is_text(item, "Metadata") {
        entities.contains_key(item)
    } else {
        match directories.get(item) {
            Some(paths) => all_have_names(paths),
            None => match entities.get(item) {
                Some(path) => file_name(path.as_str()).is_some(),
                None => true,
            },
        }
    }
}

/// The Markdown of the index, as `generate_markdown` writes it, where every
/// section can be written; `None` where the logo or the metadata is asked
/// for and missing, or where a file to link has no file name.
pub fn try_generate_markdown(
    config: Config,
    directories: &LabelMap<Vec<String>>,
    entities: &LabelMap<String>,
    extension_map: &LabelMap<String>,
) -> (markdown: Option<Vec<String>>)
    ensures
        markdown is Some <==> renderable(
            section_order(config.main, directories@, entities@),
            directories@,
            entities@,
        ),
        markdown matches Some(m) ==> views(m@) == render(
            section_order(config.main, directories@, entities@),
            title_of(config.main),
            notes_of(config.main),
            directories@,
            entities@,
        ),
{
    let order = section_order_of(&config.main, directories, entities);
    let ghost ov = views(order@);
    let n = order.len();
    let mut i: usize = 0;
    while i < n
        invariant
            n == order@.len(),
            ov == views(order@),
            ov == section_order(config.main, directories@, entities@),
            i <= n,
            forall|j: int| 0 <= j < i ==> #[trigger] section_renderable(ov[j], directories@, entities@),
        decreases n - i,
    {
        if !section_can_be_written(&order[i], directories, entities) {
            assert(!section_renderable(ov[i as int], directories@, entities@));
            return None;
        }
        i = i + 1;
    }
    Some(generate_markdown(config, directories, entities, extension_map))
}

} // verus!
