//! The changelog, compiled in.
//!
//! What a build changed is a property of that build, so the text is part of it rather than
//! fetched: a release that has to reach the network to explain itself cannot explain itself
//! offline. Only the section for the running version is ever shown.
use vstd::prelude::*;
use crate::text::{
    chars_of, has_prefix, lines, lines_of, same, starts_with, string_of, trim, trim_of,
    trim_start, trim_start_of, views,
};

verus! {

/// The whole changelog, as committed.
pub const CHANGELOG: &'static str = "# Changelog

Every released version has a section here, and the release script refuses to publish one
that does not: an update that cannot say what it changed is an update nobody has a reason to
accept. The section for the running version is what Oracle shows after it updates itself.

## 0.2.1

- Fixed: \"Check for updates\" in Settings found an update and then closed the dialog without
  saying so, which was indistinguishable from a button that does nothing. It now reports what
  it found in the row that was clicked.

## 0.2.0

- Oracle updates itself. An available update appears as a line in the title bar rather than
  a dialog over what you were doing; installing is a separate step that stops your running
  projects first, so nothing is left orphaned holding a port.
- Two projects can no longer start on the same port. Oracle refuses before spawning
  anything, names what is holding the port, and offers the next free one for that run.
- A running project is readable at a glance: its card carries an accent edge, so the answer
  to \"what is up right now\" does not need reading eight status dots.
- Start and stop show progress. The button spins until the backend answers, and a start that
  is going nowhere can still be abandoned.
- Changing the filter animates. Projects that both filters admit slide to their new row
  instead of being rebuilt in place.
- Projects reachable over HTTP are drawn with the icon their site serves.
- Projects can be reordered by dragging their cards, not only their rail icons.
- The tray panel got the component styles it had never loaded: its buttons, status dots and
  toasts were unstyled, and its search field was breaking the window's layout.
- Resident memory is down by around 120 MB. The tray panel's webview is built when it is
  first opened instead of living hidden for the whole session, and log buffers are no longer
  kept for projects nobody is looking at.
- Fixed: a project serving on IPv6 loopback was reported as not responding. A project that
  had crashed could not be restarted. An unhealthy project could not be stopped. Clicking a
  card's play button also selected the card.

## 0.1.0

- First build: launch and stop local projects, watch their CPU and memory, check remote
  deployments over HTTP, read git status, and reach all of it from a tray panel.
";

/// The index of the first line, from `from` on, that trimmed is `heading`.
pub open spec fn heading_line(ls: Seq<Seq<char>>, heading: Seq<char>, from: int) -> Option<int>
    decreases ls.len() - from,
{
    if from < 0 || from >= ls.len() {
        None
    } else if trim(ls[from]) == heading {
        Some(from)
    } else {
        heading_line(ls, heading, from + 1)
    }
}

/// Where a section that starts at line `from` ends: at the next line that, with leading
/// whitespace dropped, starts with `## `, or at the end.
pub open spec fn section_end(ls: Seq<Seq<char>>, from: int) -> int
    decreases ls.len() - from,
{
    if from < 0 || from >= ls.len() || has_prefix(trim_start(ls[from]), "## "@) {
        from
    } else {
        section_end(ls, from + 1)
    }
}

/// Lines joined with `sep` between them.
pub open spec fn joined(ls: Seq<Seq<char>>, sep: Seq<char>) -> Seq<char>
    decreases ls.len(),
{
    if ls.len() == 0 {
        Seq::empty()
    } else if ls.len() == 1 {
        ls[0]
    } else {
        joined(ls.drop_last(), sep) + sep + ls.last()
    }
}

/// The section of `changelog` headed `## <version>`, without its heading and trimmed, or
/// nothing when there is no such heading or the section is empty.
pub open spec fn section_text(changelog: Seq<char>, version: Seq<char>) -> Option<Seq<char>> {
    let ls = lines(changelog);
    match heading_line(ls, "## "@ + version, 0) {
        None => None,
        Some(start) => {
            let text = trim(joined(ls.subrange(start + 1, section_end(ls, start + 1)), "\n"@));
            if text.len() == 0 {
                None
            } else {
                Some(text)
            }
        },
    }
}

proof fn lemma_section_end_bounds(ls: Seq<Seq<char>>, from: int)
    requires
        0 <= from <= ls.len(),
    ensures
        from <= section_end(ls, from) <= ls.len(),
    decreases ls.len() - from,
{
    if from < ls.len() && !has_prefix(trim_start(ls[from]), "## "@) {
        lemma_section_end_bounds(ls, from + 1);
    }
}

/// The section of a changelog for a version, without its heading, or `None` if there is
/// no such section.
///
/// Sections are `## <version>` and run until the next `##`; the version is matched whole.
pub fn section(changelog: &str, version: &str) -> (r: Option<String>)
    ensures
        match r {
            Some(t) => section_text(changelog@, version@) == Some(t@),
            None => section_text(changelog@, version@) is None,
        },
{
    let text = chars_of(changelog);
    let ls = lines_of(text.as_slice());
    let ghost all = views(ls@);
    let mut heading = chars_of("## ");
    let v = chars_of(version);
    let mut k: usize = 0;
    while k < v.len()
        invariant
            k <= v@.len(),
            heading@ == "## "@ + v@.take(k as int),
        decreases v@.len() - k,
    {
        heading.push(v[k]);
        assert(v@.take(k + 1) =~= v@.take(k as int).push(v@[k as int]));
        k += 1;
    }
    assert(v@.take(v@.len() as int) =~= v@);
    let n = ls.len();
    let mut start: usize = 0;
    while start < n
        invariant
            n == ls@.len(),
            all == views(ls@),
            all == lines(changelog@),
            heading@ == "## "@ + version@,
            start <= n,
            heading_line(all, heading@, 0) == heading_line(all, heading@, start as int),
        ensures
            start <= n,
            heading_line(all, heading@, 0) == heading_line(all, heading@, start as int),
            start < n ==> trim(all[start as int]) == heading@,
        decreases n - start,
    {
        let t = trim_of(ls[start].as_slice());
        if same(t.as_slice(), heading.as_slice()) {
            break;
        }
        start += 1;
    }
    if start == n {
        return None;
    }
    let marker = chars_of("## ");
    let nl = chars_of("\n");
    proof {
        reveal_strlit("\n");
    }
    let first = start + 1;
    let mut out: Vec<char> = Vec::new();
    let mut j: usize = first;
    proof {
        lemma_section_end_bounds(all, first as int);
    }
    while j < n
        invariant
            n == ls@.len(),
            all == views(ls@),
            first <= j <= n,
            marker@ == "## "@,
            nl@ == "\n"@,
            section_end(all, first as int) == section_end(all, j as int),
            out@ == joined(all.subrange(first as int, j as int), "\n"@),
        ensures
            j == section_end(all, first as int),
            out@ == joined(all.subrange(first as int, j as int), "\n"@),
        decreases n - j,
    {
        let lead = trim_start_of(ls[j].as_slice());
        if starts_with(lead.as_slice(), marker.as_slice()) {
            break;
        }
        let ghost before = out@;
        if j > first {
            let mut m: usize = 0;
            while m < nl.len()
                invariant
                    m <= nl@.len(),
                    out@ == before + nl@.take(m as int),
                decreases nl@.len() - m,
            {
                out.push(nl[m]);
                assert(before + nl@.take(m + 1) =~= (before + nl@.take(m as int)).push(nl@[m as int]));
                m += 1;
            }
            assert(nl@.take(nl@.len() as int) =~= nl@);
        }
        let ghost mid = out@;
        let line = &ls[j];
        let mut m: usize = 0;
        while m < line.len()
            invariant
                m <= line@.len(),
                out@ == mid + line@.take(m as int),
            decreases line@.len() - m,
        {
            out.push(line[m]);
            assert(mid + line@.take(m + 1) =~= (mid + line@.take(m as int)).push(line@[m as int]));
            m += 1;
        }
        assert(line@.take(line@.len() as int) =~= line@);
        assert(all.subrange(first as int, j + 1).drop_last() =~= all.subrange(first as int, j as int));
        assert(j == first ==> all.subrange(first as int, j + 1) =~= seq![all[j as int]]);
        j += 1;
    }
    let trimmed = trim_of(out.as_slice());
    if trimmed.len() == 0 {
        None
    } else {
        Some(string_of(trimmed.as_slice()))
    }
}

/// The changelog section for a version, without its heading, or `None` if there is no
/// such section.
///
/// The build being unable to find its own entry is not an error worth failing over: there
/// is simply nothing to show.
pub fn for_version(version: &str) -> (r: Option<String>)
    ensures
        match r {
            Some(t) => section_text(CHANGELOG@, version@) == Some(t@),
            None => section_text(CHANGELOG@, version@) is None,
        },
{
    section(CHANGELOG, version)
}


/// A section runs from the line after its heading up to the next line that starts a section
/// (`## ` after any indentation), or to the end: no line inside it starts one.
pub proof fn lemma_section_stops_at_next_heading(ls: Seq<Seq<char>>, from: int)
    requires
        0 <= from <= ls.len(),
    ensures
        from <= section_end(ls, from) <= ls.len(),
        forall|i: int|
            from <= i < section_end(ls, from) ==> !has_prefix(trim_start(#[trigger] ls[i]), "## "@),
        section_end(ls, from) < ls.len() ==> has_prefix(
            trim_start(ls[section_end(ls, from)]),
            "## "@,
        ),
    decreases ls.len() - from,
{
    if from < ls.len() && !has_prefix(trim_start(ls[from]), "## "@) {
        lemma_section_stops_at_next_heading(ls, from + 1);
    }
}

} // verus!
