//! The configuration of an index: its title, logo, notes, the entities and
//! directories that become sections, and the order of the sections.
use vstd::prelude::*;

verus! {

/// The format of the generated index.
pub enum OutputFormat {
    HTML,
    Markdown,
}

/// The `[main]` table of a configuration.
pub struct MainCfg {
    pub title: Option<String>,
    pub logo: Option<String>,
    pub notes: Option<bool>,
    /// Pairs `[label, path]` of files that get a section of their own.
    pub entities: Option<Vec<Vec<String>>>,
    /// Pairs `[label, path]` of directories whose files are listed in a section.
    pub directories: Option<Vec<Vec<String>>>,
    /// The labels of the sections, in the order in which they are written.
    pub order: Option<Vec<String>>,
}

/// A configuration.
pub struct Config {
    pub main: MainCfg,
}

/// `label` and `path` as a `[label, path]` pair.
pub open spec fn pair(label: &str, path: &str) -> Seq<Seq<char>> {
    seq![label@, path@]
}

/// The configuration used where none is given.
pub open spec fn is_default_main_cfg(m: MainCfg) -> bool {
    &&& m.title.deep_view() == Some("Title placeholder"@)
    &&& m.logo.deep_view() == Some("./logo.png"@)
    &&& m.notes == Some(true)
    &&& m.entities.deep_view() == Some(seq![pair("Metadata", "./metadata.tsv")])
    &&& m.directories.deep_view() == Some(
        seq![
            pair("Pipelines", "./pipelines"),
            pair("Scripts", "./scripts"),
            pair("QIIME2 Exports", "./exports"),
            pair("Notebooks", "./notebooks"),
        ],
    )
    &&& m.order.deep_view() == Some(
        seq![
            "logo"@,
            "title"@,
            "notes"@,
            "Metadata"@,
            "Scripts"@,
            "Pipelines"@,
            "Notebooks"@,
            "QIIME2 Exports"@,
        ],
    )
}

fn text(s: &str) -> (r: String)
    ensures
        r@ == s@,
{
    String::from_str(s)
}

fn text_pair(label: &str, path: &str) -> (r: Vec<String>)
    ensures
        r.deep_view() == pair(label, path),
{
    let mut r: Vec<String> = Vec::new();
    r.push(text(label));
    r.push(text(path));
    assert(r.deep_view() =~= pair(label, path));
    r
}

/// The configuration used where none is given: a placeholder title, a logo,
/// notes, the metadata file as an entity, four directories, and an order
/// that puts logo, title, notes and metadata before the directories.
pub fn get_default_config() -> (cfg: Config)
    ensures
        is_default_main_cfg(cfg.main),
{
    let mut entities: Vec<Vec<String>> = Vec::new();
    entities.push(text_pair("Metadata", "./metadata.tsv"));
    let mut directories: Vec<Vec<String>> = Vec::new();
    directories.push(text_pair("Pipelines", "./pipelines"));
    directories.push(text_pair("Scripts", "./scripts"));
    directories.push(text_pair("QIIME2 Exports", "./exports"));
    directories.push(text_pair("Notebooks", "./notebooks"));
    let mut order: Vec<String> = Vec::new();
    order.push(text("logo"));
    order.push(text("title"));
    order.push(text("notes"));
    order.push(text("Metadata"));
    order.push(text("Scripts"));
    order.push(text("Pipelines"));
    order.push(text("Notebooks"));
    order.push(text("QIIME2 Exports"));
    let cfg = Config {
        main: MainCfg {
            title: Some(text("Title placeholder")),
            logo: Some(text("./logo.png")),
            notes: Some(true),
            entities: Some(entities),
            directories: Some(directories),
            order: Some(order),
        },
    };
    assert(cfg.main.entities.deep_view() =~= Some(seq![pair("Metadata", "./metadata.tsv")]));
    assert(cfg.main.directories.deep_view() =~= Some(
        seq![
            pair("Pipelines", "./pipelines"),
            pair("Scripts", "./scripts"),
            pair("QIIME2 Exports", "./exports"),
            pair("Notebooks", "./notebooks"),
        ],
    ));
    assert(cfg.main.order.deep_view() =~= Some(
        seq![
            "logo"@,
            "title"@,
            "notes"@,
            "Metadata"@,
            "Scripts"@,
            "Pipelines"@,
            "Notebooks"@,
            "QIIME2 Exports"@,
        ],
    ));
    cfg
}

} // verus!
