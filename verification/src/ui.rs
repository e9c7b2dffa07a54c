//! What the native window shows: which projects a filter and search admit and in what
//! order, and the short texts it draws for them.
use vstd::prelude::*;
use crate::model::{Project, kind_label};
use crate::remote::RemoteStatus;
use crate::runner::ProjectStatus;
use crate::sorting::{lemma_sort_member, lemma_sort_sorted, sort_by_key, stable_sort};
use crate::text::{
    all_ascii, chars_of, contains, contains_seq, decimal_digits, decimal_string, lowered, lowercase_of,
    non_empty, non_empty_of, same, split_by, split_of, string_of, trim, trim_of, upper_ascii_seq, views,
};

verus! {

/// What the tray asked for.
#[derive(Clone, Copy, Debug, PartialEq, Eq, Structural)]
pub enum TrayCommand {
    TogglePanel,
    ShowWindow,
    Quit,
}

/// Which projects the list shows.
#[derive(Clone, Copy, Debug, PartialEq, Eq, Structural)]
pub enum Filter {
    All,
    Local,
    Remote,
    Running,
}

/// The label of each filter.
pub open spec fn filter_text(f: Filter) -> Seq<char> {
    match f {
        Filter::All => "All"@,
        Filter::Local => "Local"@,
        Filter::Remote => "Remote"@,
        Filter::Running => "Running"@,
    }
}

impl Filter {
    pub fn label(self) -> (r: &'static str)
        ensures
            r@ == filter_text(self),
    {
        match self {
            Filter::All => "All",
            Filter::Local => "Local",
            Filter::Remote => "Remote",
            Filter::Running => "Running",
        }
    }
}

/// How a run of text sits in its box.
#[derive(Clone, Copy, Debug, PartialEq, Eq, Structural)]
pub enum Align {
    Left,
    Centre,
    Right,
}

/// How loudly a button asks to be pressed.
#[derive(Clone, Copy, Debug, PartialEq, Eq, Structural)]
pub enum Weight {
    /// Filled with the accent. One per screen at most.
    Primary,
    /// Glass. The default.
    Secondary,
    /// No surface until hovered.
    Plain,
    /// Secondary, but the label is the danger colour.
    Danger,
}

/// One icon of the interface, by the name of the file it is drawn from.
#[derive(Clone, Copy, Debug, PartialEq, Eq)]
pub struct Icon {
    pub name: &'static str,
}

/// The name of every icon the interface draws.
pub open spec fn icon_names() -> Seq<Seq<char>> {
    seq![
        "play"@, "square"@, "search"@, "settings"@, "pencil"@, "x"@, "plus"@, "minus"@,
        "maximize"@, "minimize"@, "power"@, "folder-search"@, "refresh-cw"@, "external-link"@,
        "git-branch"@, "activity"@, "terminal"@, "copy"@, "trash"@, "chevron-right"@,
        "chevron-down"@, "chevron-left"@, "server"@, "globe"@, "box"@, "moon"@, "sun"@,
        "sun-moon"@, "loader-circle"@, "circle-alert"@, "circle-check"@, "circle-x"@,
        "folder"@, "folder-open"@, "rocket"@, "cpu"@, "memory-stick"@, "hard-drive"@,
        "clock"@, "link-2"@, "arrow-up-right"@, "layout-grid"@, "list"@, "check"@, "eye"@,
        "panel-right-close"@, "panel-right-open"@, "save"@, "rotate-cw"@, "zap"@, "package"@,
    ]
}

/// Every icon the interface can draw.
pub fn all_icons() -> (r: Vec<Icon>)
    ensures
        r@.map_values(|i: Icon| i.name@) == icon_names(),
{
    let names: [&'static str; 51] = [
        "play", "square", "search", "settings", "pencil", "x", "plus", "minus", "maximize",
        "minimize", "power", "folder-search", "refresh-cw", "external-link", "git-branch",
        "activity", "terminal", "copy", "trash", "chevron-right", "chevron-down",
        "chevron-left", "server", "globe", "box", "moon", "sun", "sun-moon", "loader-circle",
        "circle-alert", "circle-check", "circle-x", "folder", "folder-open", "rocket", "cpu",
        "memory-stick", "hard-drive", "clock", "link-2", "arrow-up-right", "layout-grid",
        "list", "check", "eye", "panel-right-close", "panel-right-open", "save", "rotate-cw",
        "zap", "package",
    ];
    assert(names@.map_values(|s: &'static str| s@) =~= icon_names());
    let mut r: Vec<Icon> = Vec::new();
    let mut i: usize = 0;
    while i < 51
        invariant
            i <= 51,
            names@.len() == 51,
            names@.map_values(|s: &'static str| s@) == icon_names(),
            r@.map_values(|c: Icon| c.name@) == icon_names().take(i as int),
        decreases 51 - i,
    {
        let ghost before = r@;
        r.push(Icon { name: names[i] });
        assert(r@.map_values(|c: Icon| c.name@) =~= before.map_values(|c: Icon| c.name@).push(
            names@[i as int]@,
        ));
        assert(icon_names().take(i + 1) =~= icon_names().take(i as int).push(icon_names()[i as int]));
        i += 1;
    }
    assert(icon_names().take(51) =~= icon_names());
    r
}

/// What each status reads as.
pub open spec fn status_text(s: ProjectStatus) -> Seq<char> {
    match s {
        ProjectStatus::Running => "Running"@,
        ProjectStatus::Starting => "Starting"@,
        ProjectStatus::Unhealthy => "Not responding"@,
        ProjectStatus::Crashed => "Crashed"@,
        ProjectStatus::Stopped => "Stopped"@,
    }
}

pub fn status_label(status: ProjectStatus) -> (r: &'static str)
    ensures
        r@ == status_text(status),
{
    match status {
        ProjectStatus::Running => "Running",
        ProjectStatus::Starting => "Starting",
        ProjectStatus::Unhealthy => "Not responding",
        ProjectStatus::Crashed => "Crashed",
        ProjectStatus::Stopped => "Stopped",
    }
}

/// What `str::to_uppercase` gives for a string: full Unicode case mapping.
pub uninterp spec fn uppercase(s: Seq<char>) -> Seq<char>;

/// What `str::to_uppercase` gives, spelled out where it is plain: ASCII text maps letter by
/// letter to its ASCII upper case; other text goes by `uppercase`.
pub open spec fn uppered(s: Seq<char>) -> Seq<char> {
    if all_ascii(s) {
        upper_ascii_seq(s)
    } else {
        uppercase(s)
    }
}

/// Calls `str::to_uppercase`. Its result is a function of the argument alone, named
/// `uppercase`. Unicode maps each ASCII letter to its ASCII counterpart and leaves every
/// other ASCII character alone, so for ASCII text the result is stated; for other text
/// nothing more is claimed.
#[verifier::external_body]
fn uppercase_of(s: &str) -> (r: String)
    ensures
        r@ == uppercase(s@),
        all_ascii(s@) ==> r@ == upper_ascii_seq(s@),
{
    s.to_uppercase()
}

/// The words of a name: what whitespace, `-`, `_` and `.` separate.
pub open spec fn name_words(name: Seq<char>) -> Seq<Seq<char>> {
    non_empty(split_by(name, seq!['-', '_', '.'], true))
}

/// A project's monogram: the first letters of its first two words, or the first two
/// letters of its only word, in capitals; `?` for a name with no words.
pub open spec fn initials_text(name: Seq<char>) -> Seq<char> {
    let ws = name_words(name);
    if ws.len() == 0 {
        "?"@
    } else if ws.len() == 1 {
        uppered(if ws[0].len() <= 2 { ws[0] } else { ws[0].take(2) })
    } else {
        uppered(seq![ws[0][0], ws[1][0]])
    }
}

pub fn initials(name: &str) -> (r: String)
    ensures
        r@ == initials_text(name@),
{
    let text = chars_of(name);
    let seps = vec!['-', '_', '.'];
    assert(seps@ =~= seq!['-', '_', '.']);
    let pieces = split_of(text.as_slice(), seps.as_slice(), true);
    let words = non_empty_of(&pieces);
    let ghost ws = views(words@);
    if words.len() == 0 {
        return "?".to_string();
    }
    proof {
        assert(ws[0] == words@[0]@);
    }
    if words.len() == 1 {
        let w = &words[0];
        let head = if w.len() <= 2 {
            crate::text::slice_of(w.as_slice(), 0, w.len())
        } else {
            crate::text::slice_of(w.as_slice(), 0, 2)
        };
        assert(w@.subrange(0, w@.len() as int) =~= w@);
        return uppercase_of(string_of(head.as_slice()).as_str());
    }
    proof {
        assert(ws[1] == words@[1]@);
        lemma_words_not_empty(views(pieces@));
        assert(ws[0].len() > 0 && ws[1].len() > 0);
    }
    let pair = vec![words[0][0], words[1][0]];
    assert(pair@ =~= seq![ws[0][0], ws[1][0]]);
    uppercase_of(string_of(pair.as_slice()).as_str())
}

/// Every word of a name has at least one character.
proof fn lemma_words_not_empty(ws: Seq<Seq<char>>)
    ensures
        forall|i: int| 0 <= i < non_empty(ws).len() ==> non_empty(ws)[i].len() > 0,
    decreases ws.len(),
{
    if ws.len() > 0 {
        lemma_words_not_empty(ws.drop_last());
        let prev = non_empty(ws.drop_last());
        if ws.last().len() > 0 {
            assert forall|i: int| 0 <= i < non_empty(ws).len() implies non_empty(ws)[i].len()
                > 0 by {
                if i < prev.len() {
                    assert(non_empty(ws)[i] == prev[i]);
                }
            }
        }
    }
}

/// A path as the interface shows it: as written when it has at most two segments, else
/// `…/` and its last two segments, whichever separator it used.
pub open spec fn short_path_text(path: Seq<char>) -> Seq<char> {
    let parts = non_empty(split_by(path, seq!['/', '\\'], false));
    if parts.len() <= 2 {
        path
    } else {
        "…/"@ + parts[parts.len() - 2] + "/"@ + parts[parts.len() - 1]
    }
}

pub fn short_path(path: &str) -> (r: String)
    ensures
        r@ == short_path_text(path@),
{
    let text = chars_of(path);
    let seps = vec!['/', '\\'];
    assert(seps@ =~= seq!['/', '\\']);
    let pieces = split_of(text.as_slice(), seps.as_slice(), false);
    let parts = non_empty_of(&pieces);
    let n = parts.len();
    if n <= 2 {
        return path.to_string();
    }
    proof {
        assert(views(parts@)[n - 2] == parts@[n - 2]@);
        assert(views(parts@)[n - 1] == parts@[n - 1]@);
    }
    let mut r = String::new();
    r.append("…/");
    r.append(string_of(parts[n - 2].as_slice()).as_str());
    r.append("/");
    r.append(string_of(parts[n - 1].as_slice()).as_str());
    r
}

/// How the interface reports a project's last health check.
pub open spec fn remote_text(status: Option<RemoteStatus>) -> Seq<char> {
    match status {
        Some(RemoteStatus::Up { ms, .. }) => "Up · "@ + decimal_digits(ms as nat) + " ms"@,
        Some(RemoteStatus::Degraded { code, ms }) => "HTTP "@ + decimal_digits(code as nat)
            + " · "@ + decimal_digits(ms as nat) + " ms"@,
        Some(RemoteStatus::Down { reason }) => reason@,
        _ => "Not checked yet"@,
    }
}

pub fn describe_remote(status: Option<&RemoteStatus>) -> (r: String)
    ensures
        r@ == remote_text(
            match status {
                Some(s) => Some(*s),
                None => None,
            },
        ),
{
    match status {
        Some(RemoteStatus::Up { ms, .. }) => {
            let mut r = "Up · ".to_string();
            r.append(string_of(decimal_string(*ms).as_slice()).as_str());
            r.append(" ms");
            r
        },
        Some(RemoteStatus::Degraded { code, ms }) => {
            let mut r = "HTTP ".to_string();
            r.append(string_of(decimal_string(*code as u64).as_slice()).as_str());
            r.append(" · ");
            r.append(string_of(decimal_string(*ms).as_slice()).as_str());
            r.append(" ms");
            r
        },
        Some(RemoteStatus::Down { reason }) => reason.clone(),
        _ => "Not checked yet".to_string(),
    }
}

/// The URL the "open" button uses for a project, if any.
pub fn open_url(project: &Project) -> (r: Option<String>)
    ensures
        match r {
            Some(u) => crate::model::project_open_url(*project) == Some(u@),
            None => crate::model::project_open_url(*project) is None,
        },
{
    project.open_url()
}


/// The value of a hexadecimal digit, either case.
pub open spec fn hex_digit_value(c: char) -> Option<u32> {
    if '0' <= c <= '9' {
        Some((c as u32 - '0' as u32) as u32)
    } else if 'a' <= c <= 'f' {
        Some((c as u32 - 'a' as u32 + 10) as u32)
    } else if 'A' <= c <= 'F' {
        Some((c as u32 - 'A' as u32 + 10) as u32)
    } else {
        None
    }
}

/// The number hexadecimal digits spell, when every character is one.
pub open spec fn hex_number(s: Seq<char>) -> Option<int>
    decreases s.len(),
{
    if s.len() == 0 {
        Some(0)
    } else {
        match (hex_number(s.drop_last()), hex_digit_value(s.last())) {
            (Some(v), Some(d)) => Some(v * 16 + d),
            _ => None,
        }
    }
}

/// Text with every leading `#` removed, as `trim_start_matches('#')` leaves it.
pub open spec fn without_hashes(s: Seq<char>) -> Seq<char>
    decreases s.len(),
{
    if s.len() > 0 && s[0] == '#' {
        without_hashes(s.drop_first())
    } else {
        s
    }
}

/// What `u32::from_str_radix(.., 16)` reads from six characters: an optional `+`, then
/// hexadecimal digits.
pub open spec fn radix16(s: Seq<char>) -> Option<int> {
    if s.len() > 0 && s[0] == '+' {
        if s.len() == 1 {
            None
        } else {
            hex_number(s.drop_first())
        }
    } else if s.len() == 0 {
        None
    } else {
        hex_number(s)
    }
}

/// A colour written as `#RRGGBB` in the configuration, as the number it spells. Only the
/// six-digit form is understood; anything else is no colour.
pub open spec fn hex_colour(value: Seq<char>) -> Option<int> {
    let hex = without_hashes(value);
    if hex.len() != 6 {
        None
    } else {
        radix16(hex)
    }
}

/// Sixteen to the power `n`.
pub open spec fn pow16(n: nat) -> int
    decreases n,
{
    if n == 0 {
        1
    } else {
        16 * pow16((n - 1) as nat)
    }
}

fn hex_digit(c: char) -> (r: Option<u32>)
    ensures
        r == hex_digit_value(c),
{
    if '0' <= c && c <= '9' {
        Some(c as u32 - '0' as u32)
    } else if 'a' <= c && c <= 'f' {
        Some(c as u32 - 'a' as u32 + 10)
    } else if 'A' <= c && c <= 'F' {
        Some(c as u32 - 'A' as u32 + 10)
    } else {
        None
    }
}

/// The colour a hexadecimal string names, `#RRGGBB`, as a number; the short `#RGB` form
/// and anything that is not hexadecimal give nothing.
pub fn hex_value(value: &str) -> (r: Option<u32>)
    ensures
        match r {
            Some(n) => hex_colour(value@) == Some(n as int),
            None => hex_colour(value@) is None,
        },
{
    let text = chars_of(value);
    let mut start: usize = 0;
    assert(text@.skip(0) =~= text@);
    while start < text.len() && text[start] == '#'
        invariant
            start <= text@.len(),
            without_hashes(text@) == without_hashes(text@.skip(start as int)),
        decreases text@.len() - start,
    {
        assert(text@.skip(start as int).drop_first() =~= text@.skip(start + 1));
        start += 1;
    }
    let hex = crate::text::slice_of(text.as_slice(), start, text.len());
    assert(hex@ =~= text@.skip(start as int));
    assert(without_hashes(hex@) == hex@);
    if hex.len() != 6 {
        return None;
    }
    let first: usize = if hex[0] == '+' {
        1
    } else {
        0
    };
    let ghost digits = hex@.skip(first as int);
    assert(first == 0 ==> digits =~= hex@);
    assert(first == 1 ==> digits =~= hex@.drop_first());
    assert(hex_colour(value@) == hex_number(digits));
    let mut acc: u32 = 0;
    let mut i: usize = first;
    while i < 6
        invariant
            first <= i <= 6,
            hex@.len() == 6,
            digits == hex@.skip(first as int),
            hex_colour(value@) == hex_number(digits),
            hex_number(digits.take(i - first)) == Some(acc as int),
            (acc as int) < pow16((i - first) as nat),
        decreases 6 - i,
    {
        assert(digits.take(i + 1 - first).drop_last() =~= digits.take(i - first));
        assert(digits.take(i + 1 - first).last() == hex@[i as int]);
        match hex_digit(hex[i]) {
            Some(d) => {
                proof {
                    reveal_with_fuel(pow16, 7);
                    assert(pow16((i - first) as nat) <= 1048576);
                    assert(pow16((i + 1 - first) as nat) == 16 * pow16((i - first) as nat));
                }
                acc = acc * 16 + d;
            },
            None => {
                proof {
                    assert(hex_number(digits.take(i + 1 - first)) is None);
                    lemma_hex_none_extends(digits, (i + 1 - first) as int);
                }
                return None;
            },
        }
        i += 1;
    }
    assert(digits.take(6 - first) =~= digits);
    Some(acc)
}

proof fn lemma_hex_none_extends(s: Seq<char>, k: int)
    requires
        0 <= k <= s.len(),
        hex_number(s.take(k)) is None,
    ensures
        hex_number(s) is None,
    decreases s.len() - k,
{
    if k < s.len() {
        assert(s.take(k + 1).drop_last() =~= s.take(k));
        lemma_hex_none_extends(s, k + 1);
    } else {
        assert(s.take(k) =~= s);
    }
}

/// The status recorded for a project, from the entry for its id at `from` or later.
pub open spec fn status_from(
    statuses: Seq<(String, ProjectStatus)>,
    id: Seq<char>,
    from: int,
) -> Option<ProjectStatus>
    decreases statuses.len() - from,
{
    if from < 0 || from >= statuses.len() {
        None
    } else if statuses[from].0@ == id {
        Some(statuses[from].1)
    } else {
        status_from(statuses, id, from + 1)
    }
}

/// Whether a filter admits a project with the given status.
pub open spec fn filter_admits(f: Filter, p: Project, status: Option<ProjectStatus>) -> bool {
    match f {
        Filter::All => true,
        Filter::Local => p.local is Some,
        Filter::Remote => p.remote is Some,
        Filter::Running => status == Some(ProjectStatus::Running) || status == Some(
            ProjectStatus::Starting,
        ),
    }
}

/// Whether a lower-cased search admits a project: it is empty, or it occurs in the lower-cased
/// name, kind or one of the tags.
pub open spec fn query_admits(p: Project, q: Seq<char>) -> bool {
    ||| q.len() == 0
    ||| contains_seq(lowered(p.name@), q)
    ||| contains_seq(lowered(kind_label(p.kind)), q)
    ||| exists|i: int| 0 <= i < p.tags@.len() && contains_seq(lowered(p.tags@[i]@), q)
}

/// Where a project sorts in the list: favourites first, then by position.
pub open spec fn display_key(p: Project) -> i64 {
    if p.favorite {
        p.order as i64
    } else {
        (p.order + 0x1_0000_0000) as i64
    }
}

/// The admitted projects among the first `n`, as (sort key, index), in list order.
pub open spec fn admitted_upto(
    ps: Seq<Project>,
    statuses: Seq<(String, ProjectStatus)>,
    f: Filter,
    q: Seq<char>,
    n: int,
) -> Seq<(i64, usize)>
    decreases n,
{
    if n <= 0 {
        Seq::empty()
    } else {
        let rest = admitted_upto(ps, statuses, f, q, n - 1);
        let p = ps[n - 1];
        if filter_admits(f, p, status_from(statuses, p.id@, 0)) && query_admits(p, q) {
            rest.push((display_key(p), (n - 1) as usize))
        } else {
            rest
        }
    }
}

/// The indices of the projects a filter and search admit, in display order: favourites
/// first, then by position, ties in list order.
pub open spec fn visible_order(
    ps: Seq<Project>,
    statuses: Seq<(String, ProjectStatus)>,
    f: Filter,
    query: Seq<char>,
) -> Seq<usize> {
    let q = lowered(trim(query));
    sort_by_key(admitted_upto(ps, statuses, f, q, ps.len() as int)).map_values(
        |e: (i64, usize)| e.1,
    )
}

pub(crate) fn status_of(statuses: &Vec<(String, ProjectStatus)>, id: &str) -> (r: Option<ProjectStatus>)
    ensures
        r == status_from(statuses@, id@, 0),
{
    let key = chars_of(id);
    let mut j: usize = 0;
    while j < statuses.len()
        invariant
            j <= statuses@.len(),
            key@ == id@,
            status_from(statuses@, id@, 0) == status_from(statuses@, id@, j as int),
        decreases statuses@.len() - j,
    {
        if same(chars_of(statuses[j].0.as_str()).as_slice(), key.as_slice()) {
            return Some(statuses[j].1);
        }
        j += 1;
    }
    None
}

fn mentions(text: &str, q: &[char]) -> (r: bool)
    ensures
        r == contains_seq(lowered(text@), q@),
{
    let lower = lowercase_of(text);
    contains(chars_of(lower.as_str()).as_slice(), q)
}

fn admits_query(p: &Project, q: &[char]) -> (r: bool)
    ensures
        r == query_admits(*p, q@),
{
    if q.len() == 0 || mentions(p.name.as_str(), q) || mentions(p.kind.label(), q) {
        return true;
    }
    let mut i: usize = 0;
    while i < p.tags.len()
        invariant
            i <= p.tags@.len(),
            forall|k: int| 0 <= k < i ==> !contains_seq(lowered(p.tags@[k]@), q@),
        decreases p.tags@.len() - i,
    {
        if mentions(p.tags[i].as_str(), q) {
            return true;
        }
        i += 1;
    }
    false
}

/// Projects the filter and search admit, in display order, as indices into `projects`.
/// `statuses` holds the last status reported for each project id.
pub fn visible(
    projects: &Vec<Project>,
    filter: Filter,
    statuses: &Vec<(String, ProjectStatus)>,
    query: &str,
) -> (r: Vec<usize>)
    ensures
        r@ == visible_order(projects@, statuses@, filter, query@),
{
    let trimmed = trim_of(chars_of(query).as_slice());
    let folded = lowercase_of(string_of(trimmed.as_slice()).as_str());
    let q = chars_of(folded.as_str());
    let ghost qs = lowered(trim(query@));
    let mut entries: Vec<(i64, usize)> = Vec::new();
    let mut i: usize = 0;
    while i < projects.len()
        invariant
            i <= projects@.len(),
            q@ == qs,
            entries@ == admitted_upto(projects@, statuses@, filter, qs, i as int),
        decreases projects@.len() - i,
    {
        let p = &projects[i];
        let status = status_of(statuses, p.id.as_str());
        let by_filter = match filter {
            Filter::All => true,
            Filter::Local => p.local.is_some(),
            Filter::Remote => p.remote.is_some(),
            Filter::Running => match status {
                Some(ProjectStatus::Running) => true,
                Some(ProjectStatus::Starting) => true,
                _ => false,
            },
        };
        if by_filter && admits_query(p, q.as_slice()) {
            let key: i64 = if p.favorite {
                p.order as i64
            } else {
                p.order as i64 + 0x1_0000_0000
            };
            entries.push((key, i));
        }
        i += 1;
    }
    let sorted = stable_sort(entries);
    let mut r: Vec<usize> = Vec::new();
    let mut k: usize = 0;
    while k < sorted.len()
        invariant
            k <= sorted@.len(),
            r@ == sorted@.take(k as int).map_values(|e: (i64, usize)| e.1),
        decreases sorted@.len() - k,
    {
        r.push(sorted[k].1);
        assert(sorted@.take(k + 1).map_values(|e: (i64, usize)| e.1) =~= sorted@.take(
            k as int,
        ).map_values(|e: (i64, usize)| e.1).push(sorted@[k as int].1));
        k += 1;
    }
    assert(sorted@.take(sorted@.len() as int) =~= sorted@);
    r
}


proof fn lemma_admitted_entries(
    ps: Seq<Project>,
    statuses: Seq<(String, ProjectStatus)>,
    f: Filter,
    q: Seq<char>,
    n: int,
)
    requires
        n <= ps.len() <= usize::MAX,
    ensures
        forall|k: int| 0 <= k < admitted_upto(ps, statuses, f, q, n).len() ==> {
            let e = #[trigger] admitted_upto(ps, statuses, f, q, n)[k];
            &&& 0 <= e.1 < n
            &&& e.0 == display_key(ps[e.1 as int])
            &&& filter_admits(f, ps[e.1 as int], status_from(statuses, ps[e.1 as int].id@, 0))
            &&& query_admits(ps[e.1 as int], q)
        },
    decreases n,
{
    if n > 0 {
        lemma_admitted_entries(ps, statuses, f, q, n - 1);
        let rest = admitted_upto(ps, statuses, f, q, n - 1);
        let all = admitted_upto(ps, statuses, f, q, n);
        assert forall|k: int| 0 <= k < all.len() implies {
            let e = #[trigger] all[k];
            &&& 0 <= e.1 < n
            &&& e.0 == display_key(ps[e.1 as int])
            &&& filter_admits(f, ps[e.1 as int], status_from(statuses, ps[e.1 as int].id@, 0))
            &&& query_admits(ps[e.1 as int], q)
        } by {
            if k < rest.len() {
                assert(all[k] == rest[k]);
            } else {
                assert(((n - 1) as usize) as int == n - 1);
            }
        }
    }
}

/// The list shows only projects the filter and the search admit, and every favourite
/// before every other project.
pub proof fn lemma_visible_admits_and_favours(
    ps: Seq<Project>,
    statuses: Seq<(String, ProjectStatus)>,
    f: Filter,
    query: Seq<char>,
)
    requires
        ps.len() <= usize::MAX,
    ensures
        ({
            let r = visible_order(ps, statuses, f, query);
            &&& forall|a: int| 0 <= a < r.len() ==> {
                &&& #[trigger] r[a] < ps.len()
                &&& filter_admits(f, ps[r[a] as int], status_from(statuses, ps[r[a] as int].id@, 0))
                &&& query_admits(ps[r[a] as int], lowered(trim(query)))
            }
            &&& forall|a: int, b: int|
                0 <= a < b < r.len() && ps[#[trigger] r[b] as int].favorite ==> ps[#[trigger] r[a] as int].favorite
        }),
{
    let q = lowered(trim(query));
    let entries = admitted_upto(ps, statuses, f, q, ps.len() as int);
    lemma_admitted_entries(ps, statuses, f, q, ps.len() as int);
    lemma_sort_sorted(entries);
    let sorted = sort_by_key(entries);
    let r = visible_order(ps, statuses, f, query);
    assert forall|k: int| 0 <= k < sorted.len() implies {
        let e = #[trigger] sorted[k];
        &&& 0 <= e.1 < ps.len()
        &&& e.0 == display_key(ps[e.1 as int])
        &&& filter_admits(f, ps[e.1 as int], status_from(statuses, ps[e.1 as int].id@, 0))
        &&& query_admits(ps[e.1 as int], q)
    } by {
        lemma_sort_member(entries, k);
        let j = choose|j: int| 0 <= j < entries.len() && entries[j] == sorted[k];
        assert(entries[j] == sorted[k]);
    }
    assert forall|a: int| 0 <= a < r.len() implies {
        &&& #[trigger] r[a] < ps.len()
        &&& filter_admits(f, ps[r[a] as int], status_from(statuses, ps[r[a] as int].id@, 0))
        &&& query_admits(ps[r[a] as int], lowered(trim(query)))
    } by {
        assert(r[a] == sorted[a].1);
    }
    assert forall|a: int, b: int|
        0 <= a < b < r.len() && ps[#[trigger] r[b] as int].favorite implies ps[#[trigger] r[a] as int].favorite by {
        assert(r[a] == sorted[a].1);
        assert(r[b] == sorted[b].1);
        assert(sorted[a].0 <= sorted[b].0);
        let pa = ps[sorted[a].1 as int];
        let pb = ps[sorted[b].1 as int];
        assert(sorted[a].0 == display_key(pa));
        assert(sorted[b].0 == display_key(pb));
    }
}

} // verus!
