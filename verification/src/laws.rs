//! What holds of the index whatever the configuration: the laws of the
//! section order, of the section text, of the entity map and of an update.
use vstd::prelude::*;
use vstd::multiset::Multiset;
use vstd::relations::*;

use crate::config::MainCfg;
use crate::paths::{path_file_name, paths_equal};
use crate::text::{label_order, lemma_distinct_count, lemma_label_order_total, lemma_set_to_seq_distinct};
use crate::update::{
    regex_group_one, regex_is_match, scan, scan_start, scan_step, section_writable, stop_pattern,
    link_pattern, section_block, start_pattern, still_needed, without_path,
    opening_delimiter_label, is_closing_delimiter, ScanState,
};
use crate::utils::{
    all_named, all_pairs, file_rows, renderable, with_directories, close_delimiter, default_order, first_occurrences, notes_of, open_delimiter, render,
    section_lines, section_order, sorted_sections, title_line, title_of, with_delimiters,
    with_entities, configured_entities,
};

verus! {

// ---------------------------------------------------------------------------
// Keeping first occurrences
// ---------------------------------------------------------------------------

/// Keeping the first occurrence of each label leaves no label twice and
/// drops no label.
pub proof fn lemma_first_occurrences_distinct(s: Seq<Seq<char>>)
    ensures
        first_occurrences(s).no_duplicates(),
        first_occurrences(s).to_set() == s.to_set(),
    decreases s.len(),
{
    if s.len() > 0 {
        let t = s.drop_last();
        lemma_first_occurrences_distinct(t);
        let d = first_occurrences(t);
        assert(s =~= t.push(s.last()));
        t.lemma_push_to_set_commute(s.last());
        if d.contains(s.last()) {
            assert(d.to_set().contains(s.last()));
            assert(s.to_set() =~= t.to_set());
        } else {
            d.lemma_push_to_set_commute(s.last());
            let e = d.push(s.last());
            assert forall|i: int, j: int| 0 <= i < e.len() && 0 <= j < e.len() && i != j implies e[i]
                != e[j] by {
                if i < d.len() && j < d.len() {
                    assert(d[i] != d[j]);
                } else if i < d.len() {
                    assert(d.contains(d[i]));
                } else {
                    assert(d.contains(d[j]));
                }
            }
        }
    }
}

/// A list without repeated labels is kept as it is.
pub proof fn lemma_first_occurrences_of_distinct(s: Seq<Seq<char>>)
    requires
        s.no_duplicates(),
    ensures
        first_occurrences(s) == s,
    decreases s.len(),
{
    if s.len() > 0 {
        let t = s.drop_last();
        assert(t.no_duplicates());
        lemma_first_occurrences_of_distinct(t);
        if t.contains(s.last()) {
            let i = choose|i: int| 0 <= i < t.len() && t[i] == s.last();
            assert(s[i] == s[s.len() - 1]);
        }
        assert(s =~= t.push(s.last()));
    }
}

/// Keeping first occurrences twice is keeping them once.
pub proof fn lemma_first_occurrences_idempotent(s: Seq<Seq<char>>)
    ensures
        first_occurrences(first_occurrences(s)) == first_occurrences(s),
{
    lemma_first_occurrences_distinct(s);
    lemma_first_occurrences_of_distinct(first_occurrences(s));
}

/// Whether `x` is in `a + b`: in `a` or in `b`.
proof fn lemma_concat_contains(a: Seq<Seq<char>>, b: Seq<Seq<char>>, x: Seq<char>)
    ensures
        (a + b).contains(x) == (a.contains(x) || b.contains(x)),
{
    if a.contains(x) {
        let i = choose|i: int| 0 <= i < a.len() && a[i] == x;
        assert((a + b)[i] == x);
    }
    if b.contains(x) {
        let i = choose|i: int| 0 <= i < b.len() && b[i] == x;
        assert((a + b)[a.len() + i] == x);
    }
    if (a + b).contains(x) {
        let i = choose|i: int| 0 <= i < (a + b).len() && (a + b)[i] == x;
        if i < a.len() {
            assert(a[i] == x);
        } else {
            assert(b[i - a.len()] == x);
        }
    }
}

/// Keeping first occurrences of a concatenation keeps those of the first
/// part, then those of the second part that the first part does not hold.
pub proof fn lemma_first_occurrences_concat(a: Seq<Seq<char>>, b: Seq<Seq<char>>)
    ensures
        first_occurrences(a + b) == first_occurrences(a) + first_occurrences(b).filter(
            |e: Seq<char>| !a.contains(e),
        ),
    decreases b.len(),
{
    reveal(Seq::filter);
    let f = |e: Seq<char>| !a.contains(e);
    if b.len() == 0 {
        assert(a + b =~= a);
        assert(first_occurrences(b).len() == 0);
        assert(first_occurrences(b).filter(f) =~= Seq::<Seq<char>>::empty());
        assert(first_occurrences(a) + first_occurrences(b).filter(f) =~= first_occurrences(a));
    } else {
        let t = b.drop_last();
        let x = b.last();
        lemma_first_occurrences_concat(a, t);
        assert((a + b).drop_last() =~= a + t);
        assert((a + b).last() == x);
        assert(b =~= t.push(x));
        let d = first_occurrences(a + t);
        let ft = first_occurrences(t);
        lemma_first_occurrences_distinct(a + t);
        lemma_first_occurrences_distinct(t);
        assert(d.contains(x) == (a + t).contains(x)) by {
            assert(d.to_set().contains(x) == d.contains(x));
            assert((a + t).to_set().contains(x) == (a + t).contains(x));
        }
        assert(ft.contains(x) == t.contains(x)) by {
            assert(ft.to_set().contains(x) == ft.contains(x));
            assert(t.to_set().contains(x) == t.contains(x));
        }
        lemma_concat_contains(a, t, x);
        let fa = first_occurrences(a);
        if !ft.contains(x) {
            assert(ft.push(x).drop_last() =~= ft);
            assert(ft.push(x).last() == x);
        }
        if !a.contains(x) && !t.contains(x) {
            assert(fa + ft.filter(f).push(x) =~= (fa + ft.filter(f)).push(x));
        }
    }
}

// ---------------------------------------------------------------------------
// The default order
// ---------------------------------------------------------------------------

/// The sections after logo, title and notes come in lexicographic order,
/// each directory once and each entity but the logo once.
pub proof fn lemma_sorted_sections_content(directories: Set<Seq<char>>, entities: Set<Seq<char>>)
    requires
        directories.finite(),
        entities.finite(),
    ensures
        sorted_by(sorted_sections(directories, entities), label_order()),
        sorted_sections(directories, entities).to_multiset() == Multiset::from_set(directories).add(
            Multiset::from_set(entities.remove("logo"@)),
        ),
{
    broadcast use vstd::multiset::group_multiset_axioms;

    let e = entities.remove("logo"@);
    let listed = directories.to_seq() + e.to_seq();
    lemma_label_order_total();
    listed.lemma_sort_by_ensures(label_order());
    lemma_set_to_seq_distinct(directories);
    lemma_set_to_seq_distinct(e);
    vstd::seq_lib::lemma_multiset_commutative(directories.to_seq(), e.to_seq());
    let target = Multiset::from_set(directories).add(Multiset::from_set(e));
    assert forall|x: Seq<char>| listed.to_multiset().count(x) == target.count(x) by {
        lemma_distinct_count(directories.to_seq(), x);
        lemma_distinct_count(e.to_seq(), x);
        assert(directories.to_seq().to_set().contains(x) == directories.to_seq().contains(x));
        assert(e.to_seq().to_set().contains(x) == e.to_seq().contains(x));
        let md = Map::<Seq<char>, nat>::new(|k: Seq<char>| directories.contains(k), |v: Seq<char>| 1nat);
        let me = Map::<Seq<char>, nat>::new(|k: Seq<char>| e.contains(k), |v: Seq<char>| 1nat);
        assert(md.dom() =~= directories);
        assert(me.dom() =~= e);
    }
    assert(listed.to_multiset() =~= target);
}

/// The default order always has the title; it starts with the logo exactly
/// where there is a logo entity, and holds the notes exactly where they are
/// wanted, right after the title.
pub proof fn lemma_default_order_frame(directories: Set<Seq<char>>, entities: Set<Seq<char>>, notes: bool)
    ensures
        default_order(directories, entities, notes).contains("title"@),
        (default_order(directories, entities, notes)[0] == "logo"@) == entities.contains("logo"@),
        entities.contains("logo"@) ==> default_order(directories, entities, notes)[1] == "title"@,
        !entities.contains("logo"@) ==> default_order(directories, entities, notes)[0] == "title"@,
        notes ==> default_order(directories, entities, notes)[if entities.contains("logo"@) {
            2int
        } else {
            1int
        }] == "notes"@,
{
    let o = default_order(directories, entities, notes);
    if entities.contains("logo"@) {
        assert(o[1] == "title"@);
    } else {
        assert(o[0] == "title"@);
        reveal_strlit("title");
        reveal_strlit("logo");
        assert(o[0] != "logo"@);
    }
}

/// Notes are in the default order exactly where they are wanted, unless a
/// directory or entity is itself labelled `notes`.
pub proof fn lemma_default_order_notes(directories: Set<Seq<char>>, entities: Set<Seq<char>>, notes: bool)
    requires
        directories.finite(),
        entities.finite(),
    ensures
        notes ==> default_order(directories, entities, notes).contains("notes"@),
        (!notes && !directories.contains("notes"@) && !entities.contains("notes"@)) ==> !default_order(
            directories,
            entities,
            notes,
        ).contains("notes"@),
{
    broadcast use vstd::multiset::group_multiset_axioms;

    reveal_strlit("logo");
    reveal_strlit("title");
    reveal_strlit("notes");
    assert("logo"@.len() != "notes"@.len());
    assert("title"@[0] != "notes"@[0]);
    let o = default_order(directories, entities, notes);
    let head = (if entities.contains("logo"@) {
        seq!["logo"@]
    } else {
        Seq::empty()
    }) + seq!["title"@] + (if notes {
        seq!["notes"@]
    } else {
        Seq::empty()
    });
    let ss = sorted_sections(directories, entities);
    assert(o == head + ss);
    if notes {
        assert(head[head.len() - 1] == "notes"@);
        assert(o[head.len() - 1] == "notes"@);
    }
    if !notes && !directories.contains("notes"@) && !entities.contains("notes"@) {
        lemma_sorted_sections_content(directories, entities);
        let e = entities.remove("logo"@);
        let md = Map::<Seq<char>, nat>::new(|k: Seq<char>| directories.contains(k), |v: Seq<char>| 1nat);
        let me = Map::<Seq<char>, nat>::new(|k: Seq<char>| e.contains(k), |v: Seq<char>| 1nat);
        assert(md.dom() =~= directories);
        assert(me.dom() =~= e);
        assert(Multiset::from_set(directories).count("notes"@) == 0);
        assert(Multiset::from_set(e).count("notes"@) == 0);
        assert(ss.to_multiset().count("notes"@) == 0);
        vstd::seq_lib::to_multiset_contains(ss, "notes"@);
        assert(!head.contains("notes"@)) by {
            if head.contains("notes"@) {
                let i = choose|i: int| 0 <= i < head.len() && head[i] == "notes"@;
            }
        }
        lemma_concat_contains(head, ss, "notes"@);
    }
}

/// The entity map of a configuration gives each configured entity label the
/// path of its last pair, whatever the logo field holds; a label that no pair
/// names is there only as the configured logo.
pub proof fn lemma_configured_entities(main: MainCfg, i: int, label: Seq<char>)
    ensures
        (main.entities is Some && all_pairs(main.entities->Some_0@) && 0 <= i
            < main.entities->Some_0@.len() && forall|j: int|
            i < j < main.entities->Some_0@.len() ==> (#[trigger] main.entities->Some_0@[j])@[0]@
                != main.entities->Some_0@[i]@[0]@) ==> configured_entities(main).dom().contains(
            main.entities->Some_0@[i]@[0]@,
        ) && configured_entities(main)[main.entities->Some_0@[i]@[0]@]
            == main.entities->Some_0@[i]@[1],
        ((main.entities is Some ==> all_pairs(main.entities->Some_0@) && forall|j: int|
            0 <= j < main.entities->Some_0@.len() ==> (#[trigger] main.entities->Some_0@[j])@[0]@
                != label)) ==> (configured_entities(main).dom().contains(label) <==> (label
            == "logo"@ && main.logo is Some)) && (configured_entities(main).dom().contains(label)
            ==> configured_entities(main)[label] == main.logo->Some_0),
{
    let start = match main.logo {
        Some(logo) => Map::<Seq<char>, String>::empty().insert("logo"@, logo),
        None => Map::<Seq<char>, String>::empty(),
    };
    match main.entities {
        Some(entries) => {
            if all_pairs(entries@) && 0 <= i < entries@.len() && forall|j: int|
                i < j < entries@.len() ==> (#[trigger] entries@[j])@[0]@ != entries@[i]@[0]@ {
                lemma_last_entity_wins(start, entries@, i);
            }
            if all_pairs(entries@) && forall|j: int|
                0 <= j < entries@.len() ==> (#[trigger] entries@[j])@[0]@ != label {
                lemma_unlisted_entity_kept(start, entries@, label);
            }
        },
        None => {},
    }
}

// ---------------------------------------------------------------------------
// The markdown
// ---------------------------------------------------------------------------

/// The lines of a shorter order come first in the lines of a longer one.
pub proof fn lemma_render_prefix(
    order: Seq<Seq<char>>,
    k: int,
    title: Seq<char>,
    notes: bool,
    directories: Map<Seq<char>, Vec<String>>,
    entities: Map<Seq<char>, String>,
)
    requires
        0 <= k <= order.len(),
    ensures
        render(order.take(k), title, notes, directories, entities).is_prefix_of(
            render(order, title, notes, directories, entities),
        ),
    decreases order.len() - k,
{
    if k < order.len() {
        lemma_render_prefix(order, k + 1, title, notes, directories, entities);
        assert(order.take(k + 1).drop_last() =~= order.take(k));
    } else {
        assert(order.take(k) =~= order);
    }
}

/// Every section of the order is written, in its place: the lines of the
/// `k`-th section follow the lines of the sections before it.
pub proof fn lemma_render_has_section(
    order: Seq<Seq<char>>,
    k: int,
    title: Seq<char>,
    notes: bool,
    directories: Map<Seq<char>, Vec<String>>,
    entities: Map<Seq<char>, String>,
)
    requires
        0 <= k < order.len(),
    ensures
        (render(order.take(k), title, notes, directories, entities) + section_lines(
            order[k],
            title,
            notes,
            directories,
            entities,
        )).is_prefix_of(render(order, title, notes, directories, entities)),
{
    lemma_render_prefix(order, k + 1, title, notes, directories, entities);
    assert(order.take(k + 1).drop_last() =~= order.take(k));
}

/// The lines of the `k`-th section stand in the index right after those of
/// the sections before it.
proof fn lemma_render_line_at(
    order: Seq<Seq<char>>,
    k: int,
    j: int,
    title: Seq<char>,
    notes: bool,
    directories: Map<Seq<char>, Vec<String>>,
    entities: Map<Seq<char>, String>,
)
    requires
        0 <= k < order.len(),
        0 <= j < section_lines(order[k], title, notes, directories, entities).len(),
    ensures
        render(order.take(k), title, notes, directories, entities).len() + j < render(
            order,
            title,
            notes,
            directories,
            entities,
        ).len(),
        render(order, title, notes, directories, entities)[render(
            order.take(k),
            title,
            notes,
            directories,
            entities,
        ).len() + j] == section_lines(order[k], title, notes, directories, entities)[j],
{
    lemma_render_has_section(order, k, title, notes, directories, entities);
    let pre = render(order.take(k), title, notes, directories, entities);
    let sec = section_lines(order[k], title, notes, directories, entities);
    let full = render(order, title, notes, directories, entities);
    let both = pre + sec;
    assert(both[pre.len() + j] == sec[j]);
    assert(full.subrange(0, both.len() as int)[pre.len() + j] == full[pre.len() + j]);
}

/// Where the index stands at the `k`-th label of the order: the number of
/// lines of the sections before it.
pub open spec fn section_start(
    order: Seq<Seq<char>>,
    k: int,
    title: Seq<char>,
    notes: bool,
    directories: Map<Seq<char>, Vec<String>>,
    entities: Map<Seq<char>, String>,
) -> int {
    render(order.take(k), title, notes, directories, entities).len() as int
}

/// Each label of the order is written at its place in the index as it asks:
/// `title` as `# title`, `notes` (where wanted) as the notes paragraph, `logo`
/// as the centred image of the logo entity, `Metadata` as a link to the
/// metadata file, an entity as its heading and a link to its file by file
/// name, and a directory as its heading, its opening delimiter, the table
/// header, a row `[name](path) | Description` per file, and its closing
/// delimiter.
pub proof fn lemma_sections_written(
    order: Seq<Seq<char>>,
    k: int,
    title: Seq<char>,
    notes: bool,
    directories: Map<Seq<char>, Vec<String>>,
    entities: Map<Seq<char>, String>,
)
    requires
        0 <= k < order.len(),
    ensures
        ({
            let r = render(order, title, notes, directories, entities);
            let p = section_start(order, k, title, notes, directories, entities);
            let l = order[k];
            &&& l == "title"@ ==> p < r.len() && r[p] == "# "@ + title + "\n\n"@
            &&& (l == "notes"@ && notes) ==> p < r.len() && r[p] == "## Notes\n* This is a note\n\n"@
            &&& l == "logo"@ ==> p < r.len() && r[p] == "<p align='center'>\n\t<img src='"@
                + entities["logo"@]@ + "'/>\n</p>\n\n"@
            &&& l == "Metadata"@ ==> p < r.len() && r[p] == "## Metadata\n[This]("@
                + entities["Metadata"@]@ + ") is the metadata that was used\n"@
            &&& (l != "logo"@ && l != "title"@ && l != "notes"@ && l != "Metadata"@
                && !directories.dom().contains(l) && entities.dom().contains(l)) ==> p < r.len()
                && r[p] == "## "@ + l + "\n["@ + path_file_name(entities[l]@)->Some_0 + "]("@
                + entities[l]@ + ") Description\n"@
            &&& (l != "logo"@ && l != "title"@ && l != "notes"@ && l != "Metadata"@
                && directories.dom().contains(l)) ==> {
                let paths = crate::text::views(directories[l]@);
                &&& p + paths.len() + 4 <= r.len()
                &&& r[p] == "## "@ + l + "\n\n"@
                &&& r[p + 1] == "<!---"@ + l + "--->\n"@
                &&& r[p + 2] == "File | Notes\n--- | ---\n"@
                &&& forall|j: int| 0 <= j < paths.len() ==> r[p + 3 + j] == "["@ + path_file_name(
                    #[trigger] paths[j],
                )->Some_0 + "]("@ + paths[j] + ") | Description\n"@
                &&& r[p + 3 + paths.len()] == "<!---/"@ + l + "--->\n"@
            }
        }),
{
    let l = order[k];
    let r = render(order, title, notes, directories, entities);
    let p = section_start(order, k, title, notes, directories, entities);
    let sec = section_lines(l, title, notes, directories, entities);
    reveal_strlit("logo");
    reveal_strlit("title");
    reveal_strlit("notes");
    reveal_strlit("Metadata");
    assert("logo"@.len() != "Metadata"@.len());
    assert("title"@.len() != "Metadata"@.len());
    assert("notes"@.len() != "Metadata"@.len());
    assert("logo"@.len() != "title"@.len());
    assert("logo"@.len() != "notes"@.len());
    assert("title"@[0] != "notes"@[0]);
    if sec.len() > 0 {
        lemma_render_line_at(order, k, 0, title, notes, directories, entities);
    }
    if l != "logo"@ && l != "title"@ && l != "notes"@ && l != "Metadata"@ && directories.dom().contains(l) {
        let paths = crate::text::views(directories[l]@);
        let body = seq![crate::utils::directory_heading(l), crate::utils::file_table_header()] + file_rows(paths);
        assert(sec == with_delimiters(body, l));
        assert(sec.len() == paths.len() + 4);
        lemma_render_line_at(order, k, 1, title, notes, directories, entities);
        lemma_render_line_at(order, k, 2, title, notes, directories, entities);
        lemma_render_line_at(order, k, paths.len() + 3int, title, notes, directories, entities);
        assert forall|j: int| 0 <= j < paths.len() implies r[p + 3 + j] == "["@ + path_file_name(
            #[trigger] paths[j],
        )->Some_0 + "]("@ + paths[j] + ") | Description\n"@ by {
            lemma_render_line_at(order, k, j + 3, title, notes, directories, entities);
            assert(sec[j + 3] == body[j + 2]);
        }
    }
}

/// Where the configuration gives no order, the index has its title line.
pub proof fn lemma_default_markdown_has_title(
    cfg: MainCfg,
    directories: Map<Seq<char>, Vec<String>>,
    entities: Map<Seq<char>, String>,
)
    requires
        cfg.order is None,
    ensures
        render(
            section_order(cfg, directories, entities),
            title_of(cfg),
            notes_of(cfg),
            directories,
            entities,
        ).contains(title_line(title_of(cfg))),
{
    let o = section_order(cfg, directories, entities);
    lemma_default_order_frame(directories.dom(), entities.dom(), notes_of(cfg));
    let k = if entities.dom().contains("logo"@) {
        1int
    } else {
        0int
    };
    assert(o[k] == "title"@);
    reveal_strlit("title");
    reveal_strlit("logo");
    reveal_strlit("notes");
    reveal_strlit("Metadata");
    lemma_render_has_section(o, k, title_of(cfg), notes_of(cfg), directories, entities);
    let pre = render(o.take(k), title_of(cfg), notes_of(cfg), directories, entities);
    let full = render(o, title_of(cfg), notes_of(cfg), directories, entities);
    assert(section_lines(o[k], title_of(cfg), notes_of(cfg), directories, entities) == seq![
        title_line(title_of(cfg)),
    ]);
    let both = pre + seq![title_line(title_of(cfg))];
    assert(both[pre.len() as int] == title_line(title_of(cfg)));
    assert(full.subrange(0, both.len() as int)[pre.len() as int] == full[pre.len() as int]);
    assert(full[pre.len() as int] == title_line(title_of(cfg)));
}

/// Passing the default order explicitly as the configured order gives the
/// same index as giving no order, wherever the default order repeats no label.
pub proof fn lemma_explicit_default_order(
    cfg: MainCfg,
    explicit: MainCfg,
    directories: Map<Seq<char>, Vec<String>>,
    entities: Map<Seq<char>, String>,
)
    requires
        cfg.order is None,
        explicit.title == cfg.title,
        explicit.notes == cfg.notes,
        explicit.order is Some,
        crate::text::views(explicit.order->Some_0@) == default_order(
            directories.dom(),
            entities.dom(),
            notes_of(cfg),
        ),
        default_order(directories.dom(), entities.dom(), notes_of(cfg)).no_duplicates(),
    ensures
        section_order(explicit, directories, entities) == section_order(cfg, directories, entities),
        render(
            section_order(explicit, directories, entities),
            title_of(explicit),
            notes_of(explicit),
            directories,
            entities,
        ) == render(
            section_order(cfg, directories, entities),
            title_of(cfg),
            notes_of(cfg),
            directories,
            entities,
        ),
{
    lemma_first_occurrences_of_distinct(
        default_order(directories.dom(), entities.dom(), notes_of(cfg)),
    );
}

/// `s` without the label `u`.
pub open spec fn without_label(s: Seq<Seq<char>>, u: Seq<char>) -> Seq<Seq<char>>
    decreases s.len(),
{
    if s.len() == 0 {
        s
    } else if s.last() == u {
        without_label(s.drop_last(), u)
    } else {
        without_label(s.drop_last(), u).push(s.last())
    }
}

/// A sequence with one more element holds what it held and that element.
proof fn lemma_push_contains(w: Seq<Seq<char>>, x: Seq<char>, y: Seq<char>)
    ensures
        w.push(x).contains(y) == (w.contains(y) || x == y),
{
    if w.contains(y) {
        let i = choose|i: int| 0 <= i < w.len() && w[i] == y;
        assert(w.push(x)[i] == y);
    }
    if x == y {
        assert(w.push(x)[w.len() as int] == y);
    }
    if w.push(x).contains(y) {
        let i = choose|i: int| 0 <= i < w.push(x).len() && w.push(x)[i] == y;
        if i < w.len() {
            assert(w[i] == y);
        }
    }
}

/// Dropping `u` keeps every other label.
proof fn lemma_without_label_contains(s: Seq<Seq<char>>, u: Seq<char>, y: Seq<char>)
    requires
        y != u,
    ensures
        without_label(s, u).contains(y) == s.contains(y),
    decreases s.len(),
{
    if s.len() > 0 {
        let t = s.drop_last();
        let x = s.last();
        lemma_without_label_contains(t, u, y);
        assert(s =~= t.push(x));
        lemma_push_contains(t, x, y);
        if x != u {
            lemma_push_contains(without_label(t, u), x, y);
        }
    }
}

/// Dropping `u` from a concatenation drops it from each part.
proof fn lemma_without_label_concat(a: Seq<Seq<char>>, b: Seq<Seq<char>>, u: Seq<char>)
    ensures
        without_label(a + b, u) == without_label(a, u) + without_label(b, u),
    decreases b.len(),
{
    if b.len() == 0 {
        assert(a + b =~= a);
        assert(without_label(a, u) + without_label(b, u) =~= without_label(a, u));
    } else {
        let t = b.drop_last();
        lemma_without_label_concat(a, t, u);
        assert((a + b).drop_last() =~= a + t);
        assert((a + b).last() == b.last());
        if b.last() != u {
            assert(without_label(a, u) + without_label(t, u).push(b.last()) =~= (without_label(a, u)
                + without_label(t, u)).push(b.last()));
        }
    }
}

/// Dropping a label commutes with keeping first occurrences.
proof fn lemma_without_label_first_occurrences(s: Seq<Seq<char>>, u: Seq<char>)
    ensures
        without_label(first_occurrences(s), u) == first_occurrences(without_label(s, u)),
    decreases s.len(),
{
    if s.len() > 0 {
        let t = s.drop_last();
        let x = s.last();
        lemma_without_label_first_occurrences(t, u);
        let ft = first_occurrences(t);
        if x == u {
            if !ft.contains(x) {
                assert(ft.push(x).drop_last() =~= ft);
                assert(ft.push(x).last() == u);
                assert(without_label(ft.push(x), u) == without_label(ft, u));
            }
        } else {
            lemma_without_label_contains(ft, u, x);
            assert(without_label(s, u).drop_last() =~= without_label(t, u));
            assert(without_label(s, u).last() == x);
            if !ft.contains(x) {
                assert(ft.push(x).drop_last() =~= ft);
                assert(ft.push(x).last() == x);
            }
        }
    }
}

/// A label without section lines adds nothing to the index.
proof fn lemma_render_without_label(
    s: Seq<Seq<char>>,
    u: Seq<char>,
    title: Seq<char>,
    notes: bool,
    directories: Map<Seq<char>, Vec<String>>,
    entities: Map<Seq<char>, String>,
)
    requires
        section_lines(u, title, notes, directories, entities) == Seq::<Seq<char>>::empty(),
    ensures
        render(s, title, notes, directories, entities) == render(
            without_label(s, u),
            title,
            notes,
            directories,
            entities,
        ),
    decreases s.len(),
{
    if s.len() > 0 {
        let t = s.drop_last();
        lemma_render_without_label(t, u, title, notes, directories, entities);
        if s.last() == u {
            assert(render(s, title, notes, directories, entities) =~= render(
                t,
                title,
                notes,
                directories,
                entities,
            ));
        } else {
            let w = without_label(t, u).push(s.last());
            assert(w.drop_last() =~= without_label(t, u));
            assert(w.last() == s.last());
        }
    }
}

/// A label of the configured order that names no section (not `logo`,
/// `title`, `notes` or `Metadata`, no directory and no entity) changes
/// nothing, wherever it stands in the order.
pub proof fn lemma_unknown_label_ignored(
    cfg: MainCfg,
    with_unknown: MainCfg,
    directories: Map<Seq<char>, Vec<String>>,
    entities: Map<Seq<char>, String>,
    u: Seq<char>,
    k: int,
)
    requires
        cfg.order is Some,
        with_unknown.order is Some,
        with_unknown.title == cfg.title,
        with_unknown.notes == cfg.notes,
        0 <= k <= cfg.order->Some_0@.len(),
        crate::text::views(with_unknown.order->Some_0@) == crate::text::views(
            cfg.order->Some_0@,
        ).insert(k, u),
        u != "logo"@,
        u != "title"@,
        u != "notes"@,
        u != "Metadata"@,
        !directories.dom().contains(u),
        !entities.dom().contains(u),
    ensures
        render(
            section_order(with_unknown, directories, entities),
            title_of(with_unknown),
            notes_of(with_unknown),
            directories,
            entities,
        ) == render(
            section_order(cfg, directories, entities),
            title_of(cfg),
            notes_of(cfg),
            directories,
            entities,
        ),
{
    let o = crate::text::views(cfg.order->Some_0@);
    let o2 = crate::text::views(with_unknown.order->Some_0@);
    let title = title_of(cfg);
    let notes = notes_of(cfg);
    assert(section_lines(u, title, notes, directories, entities) =~= Seq::<Seq<char>>::empty());
    // Dropping `u` from the order with `u` inserted gives the order without `u`.
    assert(o2 =~= o.take(k).push(u) + o.skip(k));
    assert(o =~= o.take(k) + o.skip(k));
    lemma_without_label_concat(o.take(k).push(u), o.skip(k), u);
    lemma_without_label_concat(o.take(k), o.skip(k), u);
    assert(o.take(k).push(u).drop_last() =~= o.take(k));
    assert(without_label(o2, u) == without_label(o, u));
    // So both orders give the same index once `u` is dropped.
    lemma_without_label_first_occurrences(o2, u);
    lemma_without_label_first_occurrences(o, u);
    lemma_render_without_label(first_occurrences(o2), u, title, notes, directories, entities);
    lemma_render_without_label(first_occurrences(o), u, title, notes, directories, entities);
}

/// An index whose order asks for a missing logo or metadata entity, or for a
/// directory with a file that has no file name, cannot be written:
/// `generate_markdown` does not admit it, and `try_generate_markdown` gives
/// `None` for it.
pub proof fn lemma_unwritable_order(
    order: Seq<Seq<char>>,
    directories: Map<Seq<char>, Vec<String>>,
    entities: Map<Seq<char>, String>,
    label: Seq<char>,
)
    requires
        order.contains(label),
        (label == "logo"@ && !entities.dom().contains("logo"@)) || (label == "Metadata"@
            && !entities.dom().contains("Metadata"@)) || (label != "logo"@ && label != "title"@
            && label != "notes"@ && label != "Metadata"@ && directories.dom().contains(label)
            && !all_named(crate::text::views(directories[label]@))),
    ensures
        !renderable(order, directories, entities),
{
    reveal_strlit("logo");
    reveal_strlit("title");
    reveal_strlit("notes");
    reveal_strlit("Metadata");
    let i = choose|i: int| 0 <= i < order.len() && order[i] == label;
    if label == "logo"@ && !entities.dom().contains("logo"@) {
        assert(!crate::utils::section_renderable(label, directories, entities));
    } else if label == "Metadata"@ && !entities.dom().contains("Metadata"@) {
        assert("Metadata"@.len() != "title"@.len());
        assert("Metadata"@.len() != "notes"@.len());
        assert(!crate::utils::section_renderable(label, directories, entities));
    } else {
        assert(!crate::utils::section_renderable(label, directories, entities));
    }
    assert(!crate::utils::section_renderable(order[i], directories, entities));
}

/// The delimiters of a section frame its lines: the first line stays first,
/// the opening delimiter follows it, the closing delimiter ends the block,
/// and without the delimiters the lines are as they were.
pub proof fn lemma_delimiters_frame(lines: Seq<Seq<char>>, label: Seq<char>)
    requires
        lines.len() >= 1,
    ensures
        with_delimiters(lines, label).len() == lines.len() + 2,
        with_delimiters(lines, label)[0] == lines[0],
        with_delimiters(lines, label)[1] == open_delimiter(label),
        with_delimiters(lines, label).last() == close_delimiter(label),
        with_delimiters(lines, label).remove(1).drop_last() == lines,
{
    let w = with_delimiters(lines, label);
    assert(w.remove(1).drop_last() =~= lines);
}

// ---------------------------------------------------------------------------
// Entities
// ---------------------------------------------------------------------------

/// The path of a label is that of its last pair.
pub proof fn lemma_last_entity_wins(map: Map<Seq<char>, String>, entries: Seq<Vec<String>>, i: int)
    requires
        all_pairs(entries),
        0 <= i < entries.len(),
        forall|j: int| i < j < entries.len() ==> (#[trigger] entries[j])@[0]@ != entries[i]@[0]@,
    ensures
        with_entities(map, entries).dom().contains(entries[i]@[0]@),
        with_entities(map, entries)[entries[i]@[0]@] == entries[i]@[1],
    decreases entries.len(),
{
    if i < entries.len() - 1 {
        let t = entries.drop_last();
        assert(entries[entries.len() - 1]@[0]@ != entries[i]@[0]@);
        assert forall|j: int| i < j < t.len() implies (#[trigger] t[j])@[0]@ != t[i]@[0]@ by {
            assert(entries[j]@[0]@ != entries[i]@[0]@);
        }
        lemma_last_entity_wins(map, t, i);
    }
}

/// The files of a directory label are those found for its last pair.
pub proof fn lemma_last_directory_wins(
    map: Map<Seq<char>, Vec<String>>,
    entries: Seq<Vec<String>>,
    files: Seq<Vec<String>>,
    i: int,
)
    requires
        all_pairs(entries),
        entries.len() <= files.len(),
        0 <= i < entries.len(),
        forall|j: int| i < j < entries.len() ==> (#[trigger] entries[j])@[0]@ != entries[i]@[0]@,
    ensures
        with_directories(map, entries, files).dom().contains(entries[i]@[0]@),
        with_directories(map, entries, files)[entries[i]@[0]@] == files[i],
    decreases entries.len(),
{
    if i < entries.len() - 1 {
        let t = entries.drop_last();
        assert(entries[entries.len() - 1]@[0]@ != entries[i]@[0]@);
        assert forall|j: int| i < j < t.len() implies (#[trigger] t[j])@[0]@ != t[i]@[0]@ by {
            assert(entries[j]@[0]@ != entries[i]@[0]@);
        }
        lemma_last_directory_wins(map, t, files, i);
    }
}

/// A label that no pair names keeps whatever path it had.
pub proof fn lemma_unlisted_entity_kept(map: Map<Seq<char>, String>, entries: Seq<Vec<String>>, label: Seq<char>)
    requires
        all_pairs(entries),
        forall|j: int| 0 <= j < entries.len() ==> (#[trigger] entries[j])@[0]@ != label,
    ensures
        with_entities(map, entries).dom().contains(label) == map.dom().contains(label),
        map.dom().contains(label) ==> with_entities(map, entries)[label] == map[label],
    decreases entries.len(),
{
    if entries.len() > 0 {
        let t = entries.drop_last();
        assert(entries[entries.len() - 1]@[0]@ != label);
        assert forall|j: int| 0 <= j < t.len() implies (#[trigger] t[j])@[0]@ != label by {
            assert(entries[j]@[0]@ != label);
        }
        lemma_unlisted_entity_kept(map, t, label);
    }
}

// ---------------------------------------------------------------------------
// Updating
// ---------------------------------------------------------------------------

/// An index none of whose lines opens a section (names a label by the
/// start pattern) is left as it is.
pub proof fn lemma_update_without_sections(lines: Seq<Seq<char>>, directories: Map<Seq<char>, Vec<String>>)
    ensures
        (forall|i: int| 0 <= i < lines.len() ==> (#[trigger] regex_group_one(start_pattern(), lines[i])) is None)
            ==> scan(lines, directories) == (ScanState { markdown: lines, ..scan_start() }),
    decreases lines.len(),
{
    if lines.len() > 0 && forall|i: int| 0 <= i < lines.len() ==> (#[trigger] regex_group_one(start_pattern(), lines[i])) is None {
        let t = lines.drop_last();
        assert forall|i: int| 0 <= i < t.len() implies (#[trigger] regex_group_one(start_pattern(), t[i])) is None by {
            assert(t[i] == lines[i]);
        }
        lemma_update_without_sections(t, directories);
        assert(regex_group_one(start_pattern(), lines[lines.len() - 1]) is None);
        assert(lines =~= t.push(lines.last()));
    }
}

/// The state after `lines`, starting from `st`.
pub open spec fn scan_from(st: ScanState, lines: Seq<Seq<char>>, directories: Map<Seq<char>, Vec<String>>) -> ScanState
    decreases lines.len(),
{
    if lines.len() == 0 {
        st
    } else {
        scan_step(scan_from(st, lines.drop_last(), directories), lines.last(), directories)
    }
}

/// A pass over `a + b` is a pass over `a`, then over `b`.
proof fn lemma_scan_concat(a: Seq<Seq<char>>, b: Seq<Seq<char>>, directories: Map<Seq<char>, Vec<String>>)
    ensures
        scan(a + b, directories) == scan_from(scan(a, directories), b, directories),
    decreases b.len(),
{
    if b.len() == 0 {
        assert(a + b =~= a);
    } else {
        lemma_scan_concat(a, b.drop_last(), directories);
        assert((a + b).drop_last() =~= a + b.drop_last());
        assert((a + b).last() == b.last());
    }
}

/// Inside a section, lines that do not close it join it.
proof fn lemma_scan_section_body(st: ScanState, body: Seq<Seq<char>>, directories: Map<Seq<char>, Vec<String>>)
    requires
        st.in_section,
        !st.failed,
        forall|i: int| 0 <= i < body.len() ==> !regex_is_match(stop_pattern(), #[trigger] body[i]),
    ensures
        scan_from(st, body, directories) == (ScanState { section: st.section + body, ..st }),
    decreases body.len(),
{
    if body.len() == 0 {
        assert(st.section + body =~= st.section);
    } else {
        let t = body.drop_last();
        assert forall|i: int| 0 <= i < t.len() implies !regex_is_match(stop_pattern(), #[trigger] t[i]) by {
            assert(t[i] == body[i]);
        }
        lemma_scan_section_body(st, t, directories);
        assert(!regex_is_match(stop_pattern(), body[body.len() - 1]));
        assert(st.section + t.push(body.last()) =~= (st.section + t).push(body.last()));
        assert(body =~= t.push(body.last()));
    }
}

/// Each delimited section is handled under the label its opening delimiter
/// names: after the lines before it, an opening delimiter naming `label`,
/// lines that do not close the section, and a closing delimiter, the index
/// so far is followed by the section rewritten for `label`.
pub proof fn lemma_section_handled_under_label(
    before: Seq<Seq<char>>,
    open: Seq<char>,
    body: Seq<Seq<char>>,
    close: Seq<char>,
    label: Seq<char>,
    directories: Map<Seq<char>, Vec<String>>,
)
    ensures
        ({
            let st = scan(before, directories);
            &&& !st.failed
            &&& !st.in_section
            &&& regex_group_one(start_pattern(), open) == Some(label)
            &&& (forall|i: int| 0 <= i < body.len() ==> !regex_is_match(stop_pattern(), #[trigger] body[i]))
            &&& regex_is_match(stop_pattern(), close)
            &&& section_writable(body, label, directories)
        }) ==> scan(before + seq![open] + body + seq![close], directories) == (ScanState {
            markdown: scan(before, directories).markdown + section_block(body, label, directories),
            ..scan(before, directories)
        }),
{
    let st = scan(before, directories);
    if !st.failed && !st.in_section && regex_group_one(start_pattern(), open) == Some(label)
        && (forall|i: int| 0 <= i < body.len() ==> !regex_is_match(stop_pattern(), #[trigger] body[i]))
        && regex_is_match(stop_pattern(), close) && section_writable(body, label, directories) {
        let rest = seq![open] + body + seq![close];
        assert(before + seq![open] + body + seq![close] =~= before + rest);
        lemma_scan_concat(before, rest, directories);
        let s1 = scan_step(st, open, directories);
        assert(scan_from(st, seq![open], directories) == s1) by {
            let e = seq![open].drop_last();
            assert(e =~= Seq::<Seq<char>>::empty());
            assert(scan_from(st, e, directories) == st);
            assert(seq![open].last() == open);
        }
        lemma_scan_outside_section_empty(before, directories);
        lemma_scan_concat(before, seq![open], directories);
        lemma_scan_concat(before + seq![open], body, directories);
        lemma_scan_section_body(s1, body, directories);
        assert(s1.section + body =~= body) by {
            assert(s1.section == st.section);
        }
        lemma_scan_concat(before + seq![open] + body, seq![close], directories);
        let s2 = scan(before + seq![open] + body, directories);
        assert(scan_from(s2, seq![close], directories) == scan_step(s2, close, directories)) by {
            let e = seq![close].drop_last();
            assert(e =~= Seq::<Seq<char>>::empty());
            assert(scan_from(s2, e, directories) == s2);
            assert(seq![close].last() == close);
        }
        lemma_scan_concat(before, rest, directories);
        assert(scan(before + seq![open], directories) == s1);
        assert(scan(before + seq![open] + body, directories) == (ScanState { section: s1.section + body, ..s1 }));
        assert(s2.section == body);
        assert(s2.label == label);
        assert(st.section =~= Seq::<Seq<char>>::empty());
        assert(st.label =~= Seq::<char>::empty());
        assert(scan(before + seq![open] + body + seq![close], directories) == scan_step(s2, close, directories));
    }
}

/// Outside a section, no section lines are pending.
proof fn lemma_scan_outside_section_empty(lines: Seq<Seq<char>>, directories: Map<Seq<char>, Vec<String>>)
    ensures
        !scan(lines, directories).in_section ==> scan(lines, directories).section.len() == 0
            && scan(lines, directories).label.len() == 0,
    decreases lines.len(),
{
    if lines.len() > 0 {
        lemma_scan_outside_section_empty(lines.drop_last(), directories);
    }
}

/// A directory path is still to link only while no line links to it.
proof fn lemma_still_needed_unlinked(paths: Seq<Seq<char>>, lines: Seq<Seq<char>>, x: Seq<char>, i: int)
    requires
        still_needed(paths, lines).contains(x),
        0 <= i < lines.len(),
        regex_group_one(link_pattern(), lines[i]) is Some,
    ensures
        !paths_equal(x, regex_group_one(link_pattern(), lines[i])->Some_0),
    decreases lines.len(),
{
    let t = lines.drop_last();
    let rest = still_needed(paths, t);
    let last = lines.last();
    match regex_group_one(link_pattern(), last) {
        Some(target) => {
            lemma_without_path_excludes(rest, target, x);
            lemma_without_path_subset(rest, target, x);
            if i < t.len() {
                assert(t[i] == lines[i]);
                lemma_still_needed_unlinked(paths, t, x, i);
            }
        },
        None => {
            assert(i < t.len());
            assert(t[i] == lines[i]);
            lemma_still_needed_unlinked(paths, t, x, i);
        },
    }
}

/// Dropping the paths equal to `path` leaves none equal to it.
proof fn lemma_without_path_excludes(paths: Seq<Seq<char>>, path: Seq<char>, x: Seq<char>)
    requires
        without_path(paths, path).contains(x),
    ensures
        !paths_equal(x, path),
    decreases paths.len(),
{
    if paths.len() > 0 {
        let t = paths.drop_last();
        let r = without_path(t, path);
        if r.contains(x) {
            lemma_without_path_excludes(t, path, x);
        } else {
            let w = without_path(paths, path);
            let k = choose|k: int| 0 <= k < w.len() && w[k] == x;
            assert(!paths_equal(paths.last(), path));
            assert(k == r.len());
        }
    }
}

/// Every path of `paths` is linked by a line of `lines`: the line starts
/// with a link whose target is equal, as a path, to it.
pub open spec fn all_files_linked(paths: Seq<Seq<char>>, lines: Seq<Seq<char>>) -> bool {
    forall|p: int| 0 <= p < paths.len() ==> #[trigger] file_linked(paths[p], lines)
}

/// Some line of `lines` starts with a link whose target is equal, as a
/// path, to `path`.
pub open spec fn file_linked(path: Seq<char>, lines: Seq<Seq<char>>) -> bool {
    exists|i: int| 0 <= i < lines.len() && (#[trigger] regex_group_one(link_pattern(), lines[i])) is Some
        && paths_equal(path, regex_group_one(link_pattern(), lines[i])->Some_0)
}

/// Only files not yet linked get a row: where every file of a directory is
/// linked by some line of its section (a line whose link target is equal, as
/// a path, to the file's path), the section gets no new row and is rewritten
/// as its own lines within its delimiters.
pub proof fn lemma_linked_files_not_added(
    lines: Seq<Seq<char>>,
    label: Seq<char>,
    directories: Map<Seq<char>, Vec<String>>,
)
    ensures
        ({
            let paths = crate::text::views(directories[label]@);
            &&& directories.dom().contains(label)
            &&& all_files_linked(paths, lines)
        }) ==> still_needed(crate::text::views(directories[label]@), lines).len() == 0
            && section_block(lines, label, directories) == with_delimiters(lines, label),
{
    let paths = crate::text::views(directories[label]@);
    if directories.dom().contains(label) && all_files_linked(paths, lines) {
        let needed = still_needed(paths, lines);
        if needed.len() > 0 {
            let x = needed[0];
            assert(needed.contains(x));
            lemma_still_needed_subset(paths, lines, x);
            let p = choose|p: int| 0 <= p < paths.len() && paths[p] == x;
            assert(file_linked(paths[p], lines));
            let i = choose|i: int| 0 <= i < lines.len()
                && (#[trigger] regex_group_one(link_pattern(), lines[i])) is Some
                && paths_equal(paths[p], regex_group_one(link_pattern(), lines[i])->Some_0);
            lemma_still_needed_unlinked(paths, lines, x, i);
        }
        assert(file_rows(needed) =~= Seq::<Seq<char>>::empty());
        assert(lines + file_rows(needed) =~= lines);
    }
}

// ---------------------------------------------------------------------------
// What an update recognises and adds
// ---------------------------------------------------------------------------

/// Dropping the paths equal to `t` drops exactly those: a path stays if and
/// only if it was there and is not equal, as a path, to `t`.
pub proof fn lemma_without_path_exact(paths: Seq<Seq<char>>, t: Seq<char>, x: Seq<char>)
    ensures
        without_path(paths, t).contains(x) <==> (paths.contains(x) && !paths_equal(x, t)),
    decreases paths.len(),
{
    if without_path(paths, t).contains(x) {
        lemma_without_path_subset(paths, t, x);
        lemma_without_path_excludes(paths, t, x);
    }
    if paths.len() > 0 && paths.contains(x) && !paths_equal(x, t) {
        let q = paths.drop_last();
        let last = paths.last();
        let r = without_path(q, t);
        if x == last {
            assert(without_path(paths, t) == r.push(last));
            assert(r.push(last)[r.len() as int] == x);
        } else {
            let i = choose|i: int| 0 <= i < paths.len() && paths[i] == x;
            assert(q[i] == x);
            lemma_without_path_exact(q, t, x);
            let k = choose|k: int| 0 <= k < r.len() && r[k] == x;
            if paths_equal(last, t) {
                assert(without_path(paths, t) == r);
            } else {
                assert(r.push(last)[k] == x);
            }
        }
    }
}

/// A file of a directory that no line of the section links to (no line's
/// link target is equal to it as a path) is still to link.
pub proof fn lemma_unlinked_file_still_needed(paths: Seq<Seq<char>>, lines: Seq<Seq<char>>, x: Seq<char>)
    ensures
        (paths.contains(x) && forall|i: int|
            0 <= i < lines.len() ==> match #[trigger] regex_group_one(link_pattern(), lines[i]) {
                Some(t) => !paths_equal(x, t),
                None => true,
            }) ==> still_needed(paths, lines).contains(x),
    decreases lines.len(),
{
    if lines.len() > 0 && paths.contains(x) && forall|i: int|
        0 <= i < lines.len() ==> match #[trigger] regex_group_one(link_pattern(), lines[i]) {
            Some(t) => !paths_equal(x, t),
            None => true,
        } {
        let q = lines.drop_last();
        assert forall|i: int| 0 <= i < q.len() implies match #[trigger] regex_group_one(
            link_pattern(),
            q[i],
        ) {
            Some(t) => !paths_equal(x, t),
            None => true,
        } by {
            assert(q[i] == lines[i]);
        }
        lemma_unlinked_file_still_needed(paths, q, x);
        let last_target = regex_group_one(link_pattern(), lines[lines.len() - 1]);
        match last_target {
            Some(t) => {
                lemma_without_path_exact(still_needed(paths, q), t, x);
            },
            None => {},
        }
    }
}

/// Rewriting the section of a directory adds the row of every file of the
/// directory that no line of the section links to: `[name](path) | Description`
/// followed by a line break, the name being the file name of the path.
pub proof fn lemma_unlinked_file_gets_row(
    lines: Seq<Seq<char>>,
    label: Seq<char>,
    directories: Map<Seq<char>, Vec<String>>,
    x: Seq<char>,
)
    ensures
        (directories.dom().contains(label) && crate::text::views(directories[label]@).contains(x)
            && forall|i: int|
            0 <= i < lines.len() ==> match #[trigger] regex_group_one(link_pattern(), lines[i]) {
                Some(t) => !paths_equal(x, t),
                None => true,
            }) ==> section_block(lines, label, directories).contains(
            "["@ + path_file_name(x)->Some_0 + "]("@ + x + ") | Description\n"@,
        ),
{
    let paths = crate::text::views(directories[label]@);
    if directories.dom().contains(label) && paths.contains(x) && forall|i: int|
        0 <= i < lines.len() ==> match #[trigger] regex_group_one(link_pattern(), lines[i]) {
            Some(t) => !paths_equal(x, t),
            None => true,
        } {
        lemma_unlinked_file_still_needed(paths, lines, x);
        let needed = still_needed(paths, lines);
        let k = choose|k: int| 0 <= k < needed.len() && needed[k] == x;
        let row = "["@ + path_file_name(x)->Some_0 + "]("@ + x + ") | Description\n"@;
        let body = lines + file_rows(needed);
        assert(body[lines.len() + k] == row);
        let w = with_delimiters(body, label);
        if lines.len() + k >= 1 {
            assert(w[lines.len() + k + 1] == row);
        } else {
            assert(w[0] == row);
        }
    }
}

/// The delimiters `insert_delimiters` writes for a label with no `-` and no
/// line break, read back as lines (without their line break), are recognised:
/// the opening one names the label, the closing one closes a section.
pub proof fn lemma_written_delimiters_recognised(label: Seq<char>)
    requires
        forall|i: int| 0 <= i < label.len() ==> label[i] != '-' && label[i] != '\n',
    ensures
        opening_delimiter_label(open_delimiter(label).drop_last()) == Some(label),
        is_closing_delimiter(close_delimiter(label).drop_last()),
{
    reveal_strlit("<!---");
    reveal_strlit("--->\n");
    reveal_strlit("--->");
    reveal_strlit("<!---/");
    let o = open_delimiter(label).drop_last();
    assert(o =~= "<!---"@ + label + "--->"@);
    assert(o.take(5) =~= "<!---"@);
    assert(o.skip(o.len() - 4) =~= "--->"@);
    assert(o.subrange(5, o.len() - 4) =~= label);
    assert forall|i: int| 5 <= i < o.len() - 4 implies o[i] != '-' by {
        assert(o[i] == label[i - 5]);
    }
    let c = close_delimiter(label).drop_last();
    assert(c =~= "<!---/"@ + label + "--->"@);
    assert(c.take(6) =~= "<!---/"@);
    assert(c.skip(c.len() - 4) =~= "--->"@);
    assert forall|i: int| 6 <= i < c.len() - 4 implies c[i] != '\n' by {
        assert(c[i] == label[i - 6]);
    }
}

/// Dropping the paths equal to one path keeps only paths that were there.
pub proof fn lemma_without_path_subset(paths: Seq<Seq<char>>, path: Seq<char>, x: Seq<char>)
    requires
        without_path(paths, path).contains(x),
    ensures
        paths.contains(x),
    decreases paths.len(),
{
    if paths.len() > 0 {
        let t = paths.drop_last();
        let r = without_path(t, path);
        if r.contains(x) {
            lemma_without_path_subset(t, path, x);
            let i = choose|i: int| 0 <= i < t.len() && t[i] == x;
            assert(paths[i] == x);
        } else {
            assert(paths[paths.len() - 1] == x);
        }
    }
}

/// An update only adds rows for files of the directory: every path still
/// to link is one of its paths.
pub proof fn lemma_still_needed_subset(paths: Seq<Seq<char>>, lines: Seq<Seq<char>>, x: Seq<char>)
    requires
        still_needed(paths, lines).contains(x),
    ensures
        paths.contains(x),
    decreases lines.len(),
{
    if lines.len() > 0 {
        let t = lines.drop_last();
        let rest = still_needed(paths, t);
        match crate::update::regex_group_one(crate::update::link_pattern(), lines.last()) {
            Some(target) => {
                if without_path(rest, target).contains(x) {
                    lemma_without_path_subset(rest, target, x);
                }
            },
            None => {},
        }
        lemma_still_needed_subset(paths, t, x);
    }
}

/// A rewritten section keeps its lines: without its delimiters, the block
/// starts with the lines of the section, in order.
pub proof fn lemma_section_keeps_its_lines(
    lines: Seq<Seq<char>>,
    label: Seq<char>,
    directories: Map<Seq<char>, Vec<String>>,
)
    requires
        lines.len() >= 1,
    ensures
        section_block(lines, label, directories).remove(1).drop_last().take(lines.len() as int)
            == lines,
{
    if directories.dom().contains(label) {
        let body = lines + file_rows(still_needed(crate::text::views(directories[label]@), lines));
        lemma_delimiters_frame(body, label);
        assert(body.take(lines.len() as int) =~= lines);
    } else {
        lemma_delimiters_frame(lines, label);
        assert(lines.take(lines.len() as int) =~= lines);
    }
}

} // verus!
