//! Updating an existing index: the sections that `insert_delimiters` marked
//! are found by their delimiters and handled under their labels; the lines
//! outside them are kept, and the section of a directory gets a row for each
//! file of the directory that none of its lines links to yet.
use vstd::prelude::*;

use crate::label_map::LabelMap;
use crate::paths::{path_file_name, paths_equal, same_path};
use crate::text::views;
use crate::utils::{all_have_names, all_named, file_rows, insert_delimiters, with_delimiters};

verus! {

// ---------------------------------------------------------------------------
// Regular expressions
// ---------------------------------------------------------------------------

#[verifier::external_type_specification]
#[verifier::external_body]
pub struct ExRegex(regex::Regex);

/// Whether `regex::Regex::new` accepts `pattern`: it is valid and the regex
/// it makes stays under the crate's default size limit.
pub uninterp spec fn regex_compiles(pattern: Seq<char>) -> bool;

/// Whether the regex of `pattern` matches somewhere in `haystack`, as
/// `regex::Regex::is_match` decides.
pub uninterp spec fn regex_is_match(pattern: Seq<char>, haystack: Seq<char>) -> bool;

/// The text of capture group 1 of the first match of the regex of `pattern`
/// in `haystack`, as `regex::Regex::captures` finds it; `None` where there is
/// no match or group 1 took no part in it.
pub uninterp spec fn regex_group_one(pattern: Seq<char>, haystack: Seq<char>) -> Option<Seq<char>>;

/// A compiled regex together with the pattern it was compiled from.
struct Pattern {
    source: String,
    compiled: regex::Regex,
}

impl View for Pattern {
    type V = Seq<char>;

    closed spec fn view(&self) -> Seq<char> {
        self.source@
    }
}

/// Calls `regex::Regex::new` on `pattern`. Claims that it succeeds exactly
/// where `regex_compiles` holds; the pattern is kept beside the regex. The
/// reason of a failure is not kept.
#[verifier::external_body]
fn compile(pattern: &str) -> (r: Option<Pattern>)
    ensures
        r is Some <==> regex_compiles(pattern@),
        r matches Some(p) ==> p@ == pattern@,
{
    regex::Regex::new(pattern).ok().map(|compiled| Pattern { source: pattern.to_string(), compiled })
}

/// The label named by a line of the form `<!---label--->` whose label holds
/// no `-`: the lines that the regex `^<!---([^-]*)--->$` matches, its group 1
/// being the label (`[^-]` is any character but `-`, `$` the end of the text).
pub open spec fn opening_delimiter_label(line: Seq<char>) -> Option<Seq<char>> {
    if line.len() >= 9 && line.take(5) == "<!---"@ && line.skip(line.len() - 4) == "--->"@
        && (forall|i: int| 5 <= i < line.len() - 4 ==> line[i] != '-') {
        Some(line.subrange(5, line.len() - 4))
    } else {
        None
    }
}

/// Whether a line has the form `<!---/text--->` with no line break in the
/// text: the lines that the regex `^<!---/.*--->$` matches (`.` is any
/// character but a line break, `$` the end of the text).
pub open spec fn is_closing_delimiter(line: Seq<char>) -> bool {
    &&& line.len() >= 10
    &&& line.take(6) == "<!---/"@
    &&& line.skip(line.len() - 4) == "--->"@
    &&& forall|i: int| 6 <= i < line.len() - 4 ==> line[i] != '\n'
}

/// Calls `regex::Regex::is_match`. Claims that the result is
/// `regex_is_match` of the pattern and the haystack, and, for the pattern
/// `^<!---/.*--->$`, what the crate's documented syntax makes of it: a
/// match exactly on the lines `is_closing_delimiter` describes.
#[verifier::external_body]
fn is_match(p: &Pattern, haystack: &str) -> (b: bool)
    ensures
        b == regex_is_match(p@, haystack@),
        p@ == "^<!---/.*--->$"@ ==> b == is_closing_delimiter(haystack@),
{
    p.compiled.is_match(haystack)
}

/// Calls `regex::Regex::captures` and takes the text of capture group 1.
/// Claims that the result is `regex_group_one` of the pattern and the
/// haystack, and, for the pattern `^<!---([^-]*)--->$`, what the crate's
/// documented syntax makes of it: the label `opening_delimiter_label` finds.
#[verifier::external_body]
fn group_one(p: &Pattern, haystack: &str) -> (r: Option<String>)
    ensures
        r.deep_view() == regex_group_one(p@, haystack@),
        p@ == "^<!---([^-]*)--->$"@ ==> r.deep_view() == opening_delimiter_label(haystack@),
{
    p.compiled.captures(haystack).and_then(|caps| caps.get(1)).map(|m| m.as_str().to_string())
}

/// The line that opens the section of a label, as `insert_delimiters`
/// writes it; group 1 is the label.
pub open spec fn start_pattern() -> Seq<char> {
    "^<!---([^-]*)--->$"@
}

/// The line that closes a section, as `insert_delimiters` writes it.
pub open spec fn stop_pattern() -> Seq<char> {
    "^<!---/.*--->$"@
}

/// A line that starts with a link to a file, as a row of a directory table
/// does; group 1 is the link's target.
pub open spec fn link_pattern() -> Seq<char> {
    "^\\[.*\\]\\(([^\\)]*)\\)"@
}

// ---------------------------------------------------------------------------
// One section
// ---------------------------------------------------------------------------

/// `paths` without those equal to `path`.
pub open spec fn without_path(paths: Seq<Seq<char>>, path: Seq<char>) -> Seq<Seq<char>>
    decreases paths.len(),
{
    if paths.len() == 0 {
        paths
    } else {
        let rest = without_path(paths.drop_last(), path);
        if paths_equal(paths.last(), path) {
            rest
        } else {
            rest.push(paths.last())
        }
    }
}

/// The paths that no line of `lines` links to: each line that starts with a
/// link removes the paths equal (as paths) to the link's target.
pub open spec fn still_needed(paths: Seq<Seq<char>>, lines: Seq<Seq<char>>) -> Seq<Seq<char>>
    decreases lines.len(),
{
    if lines.len() == 0 {
        paths
    } else {
        let rest = still_needed(paths, lines.drop_last());
        match regex_group_one(link_pattern(), lines.last()) {
            Some(target) => without_path(rest, target),
            None => rest,
        }
    }
}

/// The lines of section `label` rewritten: for a directory, its lines and a
/// row for each file not yet linked (see `still_needed`); for another label,
/// its lines; either way within the delimiters of the section.
pub open spec fn section_block(
    lines: Seq<Seq<char>>,
    label: Seq<char>,
    directories: Map<Seq<char>, Vec<String>>,
) -> Seq<Seq<char>> {
    if directories.dom().contains(label) {
        with_delimiters(
            lines + file_rows(still_needed(views(directories[label]@), lines)),
            label,
        )
    } else {
        with_delimiters(lines, label)
    }
}

/// The section can be rewritten: the link pattern compiles, the block is not
/// empty, and every file still to link has a file name.
pub open spec fn section_writable(
    lines: Seq<Seq<char>>,
    label: Seq<char>,
    directories: Map<Seq<char>, Vec<String>>,
) -> bool {
    &&& regex_compiles(link_pattern())
    &&& if directories.dom().contains(label) {
        let needed = still_needed(views(directories[label]@), lines);
        &&& lines.len() + needed.len() >= 1
        &&& all_named(needed)
    } else {
        lines.len() >= 1
    }
}

/// `paths` without those equal to `path`.
fn drop_path(paths: Vec<String>, path: &String) -> (r: Vec<String>)
    ensures
        views(r@) == without_path(views(paths@), path@),
{
    let mut r: Vec<String> = Vec::new();
    let n = paths.len();
    let mut i: usize = 0;
    while i < n
        invariant
            n == paths@.len(),
            i <= n,
            views(r@) == without_path(views(paths@).take(i as int), path@),
        decreases n - i,
    {
        let x = &paths[i];
        proof {
            assert(views(paths@).take(i + 1).drop_last() =~= views(paths@).take(i as int));
            assert(views(paths@).take(i + 1).last() == x@);
        }
        if !same_path(x.as_str(), path.as_str()) {
            let ghost before = r@;
            r.push(x.clone());
            assert(views(r@) =~= views(before).push(x@));
        }
        i = i + 1;
    }
    assert(views(paths@).take(n as int) =~= views(paths@));
    r
}

/// The paths of `paths` that no line of `lines` links to.
fn paths_still_needed(paths: Vec<String>, lines: &Vec<String>, link: &Pattern) -> (r: Vec<String>)
    requires
        link@ == link_pattern(),
    ensures
        views(r@) == still_needed(views(paths@), views(lines@)),
{
    let ghost pv = views(paths@);
    let mut needed = paths;
    let n = lines.len();
    let mut i: usize = 0;
    while i < n
        invariant
            n == lines@.len(),
            link@ == link_pattern(),
            i <= n,
            views(needed@) == still_needed(pv, views(lines@).take(i as int)),
        decreases n - i,
    {
        let line = &lines[i];
        proof {
            assert(views(lines@).take(i + 1).drop_last() =~= views(lines@).take(i as int));
            assert(views(lines@).take(i + 1).last() == line@);
        }
        match group_one(link, line.as_str()) {
            Some(target) => {
                needed = drop_path(needed, &target);
            },
            None => {},
        }
        i = i + 1;
    }
    assert(views(lines@).take(n as int) =~= views(lines@));
    needed
}

/// A copy of `lines`.
fn copy_lines(lines: &Vec<String>) -> (r: Vec<String>)
    ensures
        views(r@) == views(lines@),
{
    let mut r: Vec<String> = Vec::new();
    let n = lines.len();
    let mut i: usize = 0;
    while i < n
        invariant
            n == lines@.len(),
            i <= n,
            views(r@) == views(lines@).take(i as int),
        decreases n - i,
    {
        let ghost before = r@;
        r.push(lines[i].clone());
        assert(views(lines@).take(i + 1) =~= views(lines@).take(i as int).push(lines@[i as int]@));
        assert(views(r@) =~= views(before).push(lines@[i as int]@));
        i = i + 1;
    }
    assert(views(lines@).take(n as int) =~= views(lines@));
    r
}

/// Rewrites the lines of section `label` of an index and appends them to
/// `markdown`: for a directory, every line is kept and a row is added for
/// each of its files that no line links to yet (no line starts with a link
/// whose target is equal, as a path, to the file's path); for another label
/// the lines are kept as they are. The delimiters of the section surround the
/// block.
pub fn section_handler(
    lines: &Vec<String>,
    label: &String,
    markdown: &mut Vec<String>,
    directories: &LabelMap<Vec<String>>,
)
    requires
        section_writable(views(lines@), label@, directories@),
    ensures
        views(final(markdown)@) == views(old(markdown)@) + section_block(
            views(lines@),
            label@,
            directories@,
        ),
{
    let path_regex = compile("^\\[.*\\]\\(([^\\)]*)\\)").unwrap();
    let mut lines_out: Vec<String> = copy_lines(lines);
    match directories.get(label) {
        Some(paths) => {
            let needed_paths = paths_still_needed(paths.clone(), lines, &path_regex);
            let ghost nv = views(needed_paths@);
            let m = needed_paths.len();
            let mut j: usize = 0;
            while j < m
                invariant
                    m == needed_paths@.len(),
                    nv == views(needed_paths@),
                    all_named(nv),
                    j <= m,
                    views(lines_out@) == views(lines@) + file_rows(nv.take(j as int)),
                decreases m - j,
            {
                let path = &needed_paths[j];
                assert(nv[j as int] == path@);
                assert(path_file_name(nv[j as int]) is Some);
                let name = crate::paths::file_name(path.as_str()).unwrap();
                let mut row = String::from_str("[");
                row.append(name.as_str());
                row.append("](");
                row.append(path.as_str());
                row.append(") | Description\n");
                let ghost before = lines_out@;
                lines_out.push(row);
                proof {
                    assert(nv.take(j + 1) =~= nv.take(j as int).push(path@));
                    assert(file_rows(nv.take(j + 1)) =~= file_rows(nv.take(j as int)).push(
                        crate::utils::file_row(crate::utils::name_of(path@), path@),
                    ));
                    assert(views(lines_out@) =~= views(before).push(
                        crate::utils::file_row(crate::utils::name_of(path@), path@),
                    ));
                }
                j = j + 1;
            }
            assert(nv.take(m as int) =~= nv);
            insert_delimiters(&mut lines_out, label.as_str());
        },
        None => {
            insert_delimiters(&mut lines_out, label.as_str());
        },
    }
    let ghost before = markdown@;
    let ghost block = lines_out@;
    markdown.append(&mut lines_out);
    assert(views(markdown@) =~= views(before) + views(block));
}

/// Whether section `label` with lines `lines` can be rewritten.
fn section_can_be_rewritten(
    lines: &Vec<String>,
    label: &String,
    directories: &LabelMap<Vec<String>>,
) -> (b: bool)
    ensures
        b == section_writable(views(lines@), label@, directories@),
{
    let link = match compile("^\\[.*\\]\\(([^\\)]*)\\)") {
        Some(p) => p,
        None => {
            return false;
        },
    };
    match directories.get(label) {
        Some(paths) => {
            let needed = paths_still_needed(paths.clone(), lines, &link);
            (lines.len() >= 1 || needed.len() >= 1) && all_have_names(&needed)
        },
        None => lines.len() >= 1,
    }
}

// ---------------------------------------------------------------------------
// A whole index
// ---------------------------------------------------------------------------

/// Where a pass over the lines of an index stands.
#[verifier::ext_equal]
pub struct ScanState {
    /// Inside a delimited section.
    pub in_section: bool,
    /// The lines of the current section so far.
    pub section: Seq<Seq<char>>,
    /// The label of the current section.
    pub label: Seq<char>,
    /// The updated index so far.
    pub markdown: Seq<Seq<char>>,
    /// A section that could not be rewritten was met.
    pub failed: bool,
}

/// The state before the first line.
pub open spec fn scan_start() -> ScanState {
    ScanState {
        in_section: false,
        section: Seq::empty(),
        label: Seq::empty(),
        markdown: Seq::empty(),
        failed: false,
    }
}

/// The state after `line`. Outside a section, an opening delimiter opens the
/// section of the label it names (group 1 of the start pattern), and any
/// other line is kept. Inside a section, a line that matches the stop pattern closes it and
/// the section is rewritten; any other line joins the section.
pub open spec fn scan_step(
    st: ScanState,
    line: Seq<char>,
    directories: Map<Seq<char>, Vec<String>>,
) -> ScanState {
    if st.failed {
        st
    } else if st.in_section {
        if regex_is_match(stop_pattern(), line) {
            if section_writable(st.section, st.label, directories) {
                ScanState {
                    in_section: false,
                    section: Seq::empty(),
                    label: Seq::empty(),
                    markdown: st.markdown + section_block(st.section, st.label, directories),
                    failed: false,
                }
            } else {
                ScanState { failed: true, ..st }
            }
        } else {
            ScanState { section: st.section.push(line), ..st }
        }
    } else {
        match regex_group_one(start_pattern(), line) {
            Some(label) => ScanState { in_section: true, label: label, ..st },
            None => ScanState { markdown: st.markdown.push(line), ..st },
        }
    }
}

/// The state after all of `lines`.
pub open spec fn scan(lines: Seq<Seq<char>>, directories: Map<Seq<char>, Vec<String>>) -> ScanState
    decreases lines.len(),
{
    if lines.len() == 0 {
        scan_start()
    } else {
        scan_step(scan(lines.drop_last(), directories), lines.last(), directories)
    }
}

/// The lines of an existing index, updated: lines outside delimited sections
/// are kept, and each delimited section is rewritten (see
/// `section_handler`); a section still open at the end is dropped. `None`
/// where the start or stop pattern does not compile or a section cannot be
/// rewritten.
pub fn update_markdown(lines: &Vec<String>, directories: &LabelMap<Vec<String>>) -> (r: Option<
    Vec<String>,
>)
    ensures
        r is Some <==> (regex_compiles(start_pattern()) && regex_compiles(stop_pattern()) && !scan(
            views(lines@),
            directories@,
        ).failed),
        r matches Some(m) ==> views(m@) == scan(views(lines@), directories@).markdown,
        r is Some ==> forall|i: int|
            0 <= i < lines@.len() ==> regex_group_one(start_pattern(), #[trigger] lines@[i]@)
                == opening_delimiter_label(lines@[i]@) && regex_is_match(
                stop_pattern(),
                lines@[i]@,
            ) == is_closing_delimiter(lines@[i]@),
{
    let delim_start = match compile("^<!---([^-]*)--->$") {
        Some(p) => p,
        None => {
            return None;
        },
    };
    let delim_stop = match compile("^<!---/.*--->$") {
        Some(p) => p,
        None => {
            return None;
        },
    };
    let ghost lv = views(lines@);
    let mut markdown: Vec<String> = Vec::new();
    let mut delim_flag = false;
    let mut delim_lines: Vec<String> = Vec::new();
    let mut section_label = String::new();
    let n = lines.len();
    let mut i: usize = 0;
    assert(lv.take(0) =~= Seq::<Seq<char>>::empty());
    assert(views(markdown@) =~= Seq::<Seq<char>>::empty());
    assert(views(delim_lines@) =~= Seq::<Seq<char>>::empty());
    while i < n
        invariant
            n == lines@.len(),
            lv == views(lines@),
            delim_start@ == start_pattern(),
            delim_stop@ == stop_pattern(),
            i <= n,
            forall|j: int|
                0 <= j < i ==> regex_group_one(start_pattern(), #[trigger] lv[j])
                    == opening_delimiter_label(lv[j]) && regex_is_match(stop_pattern(), lv[j])
                    == is_closing_delimiter(lv[j]),
            scan(lv.take(i as int), directories@) == (ScanState {
                in_section: delim_flag,
                section: views(delim_lines@),
                label: section_label@,
                markdown: views(markdown@),
                failed: false,
            }),
        decreases n - i,
    {
        let line = &lines[i];
        proof {
            assert(lv.take(i + 1).drop_last() =~= lv.take(i as int));
            assert(lv.take(i + 1).last() == line@);
        }
        let opened = group_one(&delim_start, line.as_str());
        let closes = is_match(&delim_stop, line.as_str());
        assert(lv[i as int] == line@);
        if delim_flag {
            if closes {
                if !section_can_be_rewritten(&delim_lines, &section_label, directories) {
                    proof {
                        lemma_scan_stays_failed(lv, i as int + 1, directories@);
                        assert(lv.take(n as int) =~= lv);
                    }
                    return None;
                }
                section_handler(&delim_lines, &section_label, &mut markdown, directories);
                delim_flag = false;
                delim_lines = Vec::new();
                section_label = String::new();
                assert(views(delim_lines@) =~= Seq::<Seq<char>>::empty());
            } else {
                let ghost before = delim_lines@;
                delim_lines.push(line.clone());
                assert(views(delim_lines@) =~= views(before).push(line@));
            }
        } else {
            match opened {
                Some(label) => {
                    delim_flag = true;
                    section_label = label;
                },
                None => {
                    let ghost before = markdown@;
                    markdown.push(line.clone());
                    assert(views(markdown@) =~= views(before).push(line@));
                },
            }
        }
        i = i + 1;
    }
    assert(lv.take(n as int) =~= lv);
    assert forall|j: int| 0 <= j < lines@.len() implies regex_group_one(
        start_pattern(),
        #[trigger] lines@[j]@,
    ) == opening_delimiter_label(lines@[j]@) && regex_is_match(stop_pattern(), lines@[j]@)
        == is_closing_delimiter(lines@[j]@) by {
        assert(lv[j] == lines@[j]@);
    }
    Some(markdown)
}

/// Once a pass has failed, it stays failed.
proof fn lemma_scan_stays_failed(lines: Seq<Seq<char>>, k: int, directories: Map<Seq<char>, Vec<String>>)
    requires
        0 <= k <= lines.len(),
        scan(lines.take(k), directories).failed,
    ensures
        scan(lines, directories).failed,
    decreases lines.len() - k,
{
    if k < lines.len() {
        assert(lines.take(k + 1).drop_last() =~= lines.take(k));
        lemma_scan_stays_failed(lines, k + 1, directories);
    } else {
        assert(lines.take(k) =~= lines);
    }
}

} // verus!
