//! Character-level text handling shared by every parser in the crate.
use vstd::prelude::*;

verus! {

/// `String::push` appends one character.
pub assume_specification[ String::push ](s: &mut String, ch: char)
    ensures
        final(s)@ == old(s)@.push(ch),
;

/// Unicode `White_Space`, the property `char::is_whitespace` tests.
pub open spec fn is_ws(c: char) -> bool {
    let n = c as u32;
    ||| 0x09 <= n <= 0x0d
    ||| n == 0x20
    ||| n == 0x85
    ||| n == 0xa0
    ||| n == 0x1680
    ||| 0x2000 <= n <= 0x200a
    ||| n == 0x2028
    ||| n == 0x2029
    ||| n == 0x202f
    ||| n == 0x205f
    ||| n == 0x3000
}

pub fn is_whitespace(c: char) -> (b: bool)
    ensures
        b == is_ws(c),
{
    let n = c as u32;
    (0x09 <= n && n <= 0x0d) || n == 0x20 || n == 0x85 || n == 0xa0 || n == 0x1680
        || (0x2000 <= n && n <= 0x200a) || n == 0x2028 || n == 0x2029 || n == 0x202f
        || n == 0x205f || n == 0x3000
}

/// The characters of a string, in order.
pub fn chars_of(s: &str) -> (v: Vec<char>)
    ensures
        v@ == s@,
{
    let n = s.unicode_len();
    let mut v: Vec<char> = Vec::new();
    let mut i: usize = 0;
    while i < n
        invariant
            n == s@.len(),
            i <= n,
            v@ == s@.subrange(0, i as int),
        decreases n - i,
    {
        v.push(s.get_char(i));
        i += 1;
    }
    v
}

/// A string made of the given characters.
pub fn string_of(v: &[char]) -> (s: String)
    ensures
        s@ == v@,
{
    let mut s = String::new();
    let mut i: usize = 0;
    while i < v.len()
        invariant
            i <= v@.len(),
            s@ == v@.subrange(0, i as int),
        decreases v@.len() - i,
    {
        s.push(v[i]);
        i += 1;
    }
    s
}


/// `p` occurs in `s` starting at `i`.
pub open spec fn occurs_at(s: Seq<char>, p: Seq<char>, i: int) -> bool {
    0 <= i && i + p.len() <= s.len() && s.subrange(i, i + p.len()) == p
}

pub open spec fn has_prefix(s: Seq<char>, p: Seq<char>) -> bool {
    occurs_at(s, p, 0)
}

pub open spec fn has_suffix(s: Seq<char>, p: Seq<char>) -> bool {
    p.len() <= s.len() && occurs_at(s, p, s.len() - p.len())
}

pub open spec fn contains_seq(s: Seq<char>, p: Seq<char>) -> bool {
    exists|i: int| occurs_at(s, p, i)
}

/// Index of the first occurrence of `p` in `s` at or after `from`.
pub open spec fn first_at_or_after(s: Seq<char>, p: Seq<char>, from: int, i: int) -> bool {
    &&& from <= i
    &&& occurs_at(s, p, i)
    &&& forall|j: int| from <= j < i ==> !occurs_at(s, p, j)
}

/// The first occurrence of `p` in `s` at or after `from`, as `str::find` on `s[from..]`
/// reports it (shifted back to an index into `s`).
pub open spec fn index_from(s: Seq<char>, p: Seq<char>, from: int) -> Option<int>
    decreases s.len() - from,
{
    if from < 0 || from > s.len() {
        None
    } else if occurs_at(s, p, from) {
        Some(from)
    } else if from == s.len() {
        None
    } else {
        index_from(s, p, from + 1)
    }
}

pub proof fn lemma_index_from(s: Seq<char>, p: Seq<char>, from: int, found: Option<int>)
    requires
        0 <= from,
        match found {
            Some(i) => first_at_or_after(s, p, from, i),
            None => forall|j: int| from <= j ==> !occurs_at(s, p, j),
        },
    ensures
        index_from(s, p, from) == found,
    decreases s.len() - from,
{
    if from > s.len() {
        if let Some(i) = found {
            assert(occurs_at(s, p, i));
        }
    } else if occurs_at(s, p, from) {
        if let Some(i) = found {
            if i > from {
                assert(!occurs_at(s, p, from));
            }
        }
    } else if from == s.len() {
        if let Some(i) = found {
            assert(occurs_at(s, p, i));
        }
    } else {
        lemma_index_from(s, p, from + 1, found);
    }
}

pub proof fn lemma_index_from_found(s: Seq<char>, p: Seq<char>, from: int)
    ensures
        index_from(s, p, from) matches Some(i) ==> from <= i && occurs_at(s, p, i),
    decreases s.len() - from,
{
    if 0 <= from < s.len() && !occurs_at(s, p, from) {
        lemma_index_from_found(s, p, from + 1);
    }
}

/// `find_from` with its answer stated as `index_from`.
pub fn index_of_from(s: &[char], p: &[char], from: usize) -> (r: Option<usize>)
    ensures
        match r {
            Some(i) => index_from(s@, p@, from as int) == Some(i as int) && occurs_at(s@, p@, i as int),
            None => index_from(s@, p@, from as int) is None,
        },
{
    let r = find_from(s, p, from);
    proof {
        lemma_index_from(
            s@,
            p@,
            from as int,
            match r {
                Some(i) => Some(i as int),
                None => None,
            },
        );
    }
    r
}

pub fn same(a: &[char], b: &[char]) -> (r: bool)
    ensures
        r == (a@ == b@),
{
    if a.len() != b.len() {
        return false;
    }
    let mut i: usize = 0;
    while i < a.len()
        invariant
            a@.len() == b@.len(),
            i <= a@.len(),
            forall|j: int| 0 <= j < i ==> a@[j] == b@[j],
        decreases a@.len() - i,
    {
        if a[i] != b[i] {
            return false;
        }
        i += 1;
    }
    assert(a@ =~= b@);
    true
}

/// Whether `p` occurs in `s` at index `at`.
pub fn matches_at(s: &[char], p: &[char], at: usize) -> (r: bool)
    ensures
        r == occurs_at(s@, p@, at as int),
{
    if at > s.len() || p.len() > s.len() - at {
        return false;
    }
    let n = s.len();
    let mut i: usize = 0;
    while i < p.len()
        invariant
            n == s@.len(),
            at + p@.len() <= s@.len(),
            i <= p@.len(),
            forall|j: int| 0 <= j < i ==> s@[at + j] == p@[j],
        decreases p@.len() - i,
    {
        assert(at + i < s@.len());
        if s[at + i] != p[i] {
            assert(s@.subrange(at as int, at + p@.len())[i as int] != p@[i as int]);
            return false;
        }
        i += 1;
    }
    assert(s@.subrange(at as int, at + p@.len()) =~= p@);
    true
}

pub fn starts_with(s: &[char], p: &[char]) -> (r: bool)
    ensures
        r == has_prefix(s@, p@),
{
    matches_at(s, p, 0)
}

pub fn ends_with(s: &[char], p: &[char]) -> (r: bool)
    ensures
        r == has_suffix(s@, p@),
{
    if p.len() > s.len() {
        false
    } else {
        matches_at(s, p, s.len() - p.len())
    }
}

/// The first occurrence of `p` in `s` at or after `from`.
pub fn find_from(s: &[char], p: &[char], from: usize) -> (r: Option<usize>)
    ensures
        match r {
            Some(i) => first_at_or_after(s@, p@, from as int, i as int),
            None => forall|j: int| from <= j ==> !occurs_at(s@, p@, j),
        },
{
    if from > s.len() {
        return None;
    }
    let mut i: usize = from;
    while i < s.len()
        invariant
            from <= i <= s@.len(),
            forall|j: int| from <= j < i ==> !occurs_at(s@, p@, j),
        decreases s@.len() - i,
    {
        if matches_at(s, p, i) {
            return Some(i);
        }
        i += 1;
    }
    if matches_at(s, p, i) {
        return Some(i);
    }
    None
}

pub fn contains(s: &[char], p: &[char]) -> (r: bool)
    ensures
        r == contains_seq(s@, p@),
{
    match find_from(s, p, 0) {
        Some(i) => true,
        None => {
            assert forall|j: int| !occurs_at(s@, p@, j) by {
                if j < 0 {
                }
            }
            false
        },
    }
}

/// The characters of `s` from `a` up to `b`.
pub fn slice_of(s: &[char], a: usize, b: usize) -> (r: Vec<char>)
    requires
        a <= b <= s@.len(),
    ensures
        r@ == s@.subrange(a as int, b as int),
{
    let mut r: Vec<char> = Vec::new();
    let mut i: usize = a;
    while i < b
        invariant
            a <= i <= b <= s@.len(),
            r@ == s@.subrange(a as int, i as int),
        decreases b - i,
    {
        r.push(s[i]);
        i += 1;
    }
    r
}

/// How far the whitespace starting at `i` runs.
pub open spec fn skip_ws(s: Seq<char>, i: int) -> int
    decreases s.len() - i,
{
    if 0 <= i < s.len() && is_ws(s[i]) {
        skip_ws(s, i + 1)
    } else {
        i
    }
}

/// Where the whitespace ending at `j` begins.
pub open spec fn back_ws(s: Seq<char>, j: int) -> int
    decreases j,
{
    if 0 < j <= s.len() && is_ws(s[j - 1]) {
        back_ws(s, j - 1)
    } else {
        j
    }
}

/// `str::trim_start`.
pub open spec fn trim_start(s: Seq<char>) -> Seq<char> {
    s.skip(skip_ws(s, 0))
}

/// `str::trim_end`.
pub open spec fn trim_end(s: Seq<char>) -> Seq<char> {
    s.take(back_ws(s, s.len() as int))
}

/// `str::trim`.
pub open spec fn trim(s: Seq<char>) -> Seq<char> {
    trim_start(trim_end(s))
}

proof fn lemma_skip_ws_range(s: Seq<char>, i: int)
    requires
        0 <= i <= s.len(),
    ensures
        i <= skip_ws(s, i) <= s.len(),
    decreases s.len() - i,
{
    if i < s.len() && is_ws(s[i]) {
        lemma_skip_ws_range(s, i + 1);
    }
}

proof fn lemma_back_ws_range(s: Seq<char>, j: int)
    requires
        0 <= j <= s.len(),
    ensures
        0 <= back_ws(s, j) <= j,
    decreases j,
{
    if 0 < j && is_ws(s[j - 1]) {
        lemma_back_ws_range(s, j - 1);
    }
}

/// Index of the first non-whitespace character of `s`, or its length.
pub fn first_non_ws(s: &[char]) -> (r: usize)
    ensures
        r == skip_ws(s@, 0),
        r <= s@.len(),
{
    let mut i: usize = 0;
    while i < s.len() && is_whitespace(s[i])
        invariant
            i <= s@.len(),
            skip_ws(s@, 0) == skip_ws(s@, i as int),
        decreases s@.len() - i,
    {
        i += 1;
    }
    i
}

/// One past the last non-whitespace character of `s`, or zero.
pub fn end_non_ws(s: &[char]) -> (r: usize)
    ensures
        r == back_ws(s@, s@.len() as int),
        r <= s@.len(),
{
    let mut j: usize = s.len();
    while j > 0 && is_whitespace(s[j - 1])
        invariant
            j <= s@.len(),
            back_ws(s@, s@.len() as int) == back_ws(s@, j as int),
        decreases j,
    {
        j -= 1;
    }
    j
}

pub fn trim_start_of(s: &[char]) -> (r: Vec<char>)
    ensures
        r@ == trim_start(s@),
{
    let a = first_non_ws(s);
    slice_of(s, a, s.len())
}

pub fn trim_of(s: &[char]) -> (r: Vec<char>)
    ensures
        r@ == trim(s@),
{
    let b = end_non_ws(s);
    let t = slice_of(s, 0, b);
    let a = first_non_ws(t.as_slice());
    proof {
        assert(t@ == trim_end(s@));
    }
    slice_of(t.as_slice(), a, t.len())
}


/// `char::to_ascii_lowercase`.
pub open spec fn lower_ascii(c: char) -> char {
    if 'A' <= c <= 'Z' {
        ((c as u32) + 32) as char
    } else {
        c
    }
}

/// `str::to_ascii_lowercase`.
pub open spec fn lower_ascii_seq(s: Seq<char>) -> Seq<char> {
    s.map_values(|c: char| lower_ascii(c))
}

pub fn to_ascii_lower(c: char) -> (r: char)
    ensures
        r == lower_ascii(c),
{
    if 'A' <= c && c <= 'Z' {
        let b = (c as u8) + 32;
        assert(b as char == ((c as u32) + 32) as char);
        b as char
    } else {
        c
    }
}

pub fn ascii_lower_of(s: &[char]) -> (r: Vec<char>)
    ensures
        r@ == lower_ascii_seq(s@),
{
    let mut r: Vec<char> = Vec::new();
    let mut i: usize = 0;
    while i < s.len()
        invariant
            i <= s@.len(),
            r@ == lower_ascii_seq(s@.take(i as int)),
        decreases s@.len() - i,
    {
        r.push(to_ascii_lower(s[i]));
        assert(lower_ascii_seq(s@.take(i + 1)) =~= lower_ascii_seq(s@.take(i as int)).push(
            lower_ascii(s@[i as int]),
        ));
        i += 1;
    }
    assert(s@.take(s@.len() as int) =~= s@);
    r
}

/// `str::eq_ignore_ascii_case`.
pub fn eq_ignore_ascii_case(a: &[char], b: &[char]) -> (r: bool)
    ensures
        r == (lower_ascii_seq(a@) == lower_ascii_seq(b@)),
{
    let la = ascii_lower_of(a);
    let lb = ascii_lower_of(b);
    same(la.as_slice(), lb.as_slice())
}

/// The character sequences held by a list of character vectors.
pub open spec fn views(v: Seq<Vec<char>>) -> Seq<Seq<char>> {
    v.map_values(|x: Vec<char>| x@)
}

/// A separator for [`split_by`]: one of `seps`, or any whitespace when `ws` is set.
pub open spec fn is_sep(c: char, seps: Seq<char>, ws: bool) -> bool {
    seps.contains(c) || (ws && is_ws(c))
}

/// `str::split` on a set of separators: always at least one piece.
pub open spec fn split_by(s: Seq<char>, seps: Seq<char>, ws: bool) -> Seq<Seq<char>>
    decreases s.len(),
{
    if s.len() == 0 {
        seq![Seq::<char>::empty()]
    } else {
        let prev = split_by(s.drop_last(), seps, ws);
        if is_sep(s.last(), seps, ws) {
            prev.push(Seq::<char>::empty())
        } else {
            prev.update(prev.len() - 1, prev.last().push(s.last()))
        }
    }
}

pub proof fn lemma_split_nonempty(s: Seq<char>, seps: Seq<char>, ws: bool)
    ensures
        split_by(s, seps, ws).len() >= 1,
        split_by(s, seps, ws).len() <= s.len() + 1,
    decreases s.len(),
{
    if s.len() > 0 {
        lemma_split_nonempty(s.drop_last(), seps, ws);
    }
}

/// The first piece of a split is where the text starts, and the whole text when nothing
/// split it.
pub proof fn lemma_split_first_prefix(s: Seq<char>, seps: Seq<char>, ws: bool)
    ensures
        has_prefix(s, split_by(s, seps, ws)[0]),
        split_by(s, seps, ws).len() == 1 ==> split_by(s, seps, ws)[0] == s,
    decreases s.len(),
{
    lemma_split_nonempty(s, seps, ws);
    if s.len() > 0 {
        let t = s.drop_last();
        lemma_split_first_prefix(t, seps, ws);
        lemma_split_nonempty(t, seps, ws);
        let prev = split_by(t, seps, ws);
        assert(s.subrange(0, prev[0].len() as int) =~= t.subrange(0, prev[0].len() as int));
        if !is_sep(s.last(), seps, ws) && prev.len() == 1 {
            assert(prev[0].push(s.last()) =~= s);
            assert(s.subrange(0, s.len() as int) =~= s);
        }
    } else {
        assert(s.subrange(0, 0) =~= Seq::<char>::empty());
    }
}

/// Splitting text that ends in a separator and then goes on: the pieces before that
/// separator, then the pieces of the rest.
pub proof fn lemma_split_after_sep(x: Seq<char>, y: Seq<char>, seps: Seq<char>, ws: bool)
    requires
        x.len() > 0,
        is_sep(x.last(), seps, ws),
    ensures
        split_by(x + y, seps, ws) == split_by(x, seps, ws).drop_last() + split_by(y, seps, ws),
    decreases y.len(),
{
    let px = split_by(x, seps, ws);
    assert(x.drop_last() + Seq::<char>::empty() =~= x.drop_last());
    if y.len() == 0 {
        assert(x + y =~= x);
        assert(px.last() =~= Seq::<char>::empty());
        assert(px.drop_last() + seq![Seq::<char>::empty()] =~= px);
    } else {
        let t = y.drop_last();
        lemma_split_after_sep(x, t, seps, ws);
        assert((x + y).drop_last() =~= x + t);
        assert((x + y).last() == y.last());
        let a = px.drop_last();
        let b = split_by(t, seps, ws);
        lemma_split_nonempty(t, seps, ws);
        if is_sep(y.last(), seps, ws) {
            assert((a + b).push(Seq::<char>::empty()) =~= a + b.push(Seq::<char>::empty()));
        } else {
            assert((a + b).update((a + b).len() - 1, (a + b).last().push(y.last())) =~= a + b.update(
                b.len() - 1,
                b.last().push(y.last()),
            ));
        }
    }
}

/// Text with no separator in it is one piece.
pub proof fn lemma_split_unbroken(t: Seq<char>, seps: Seq<char>, ws: bool)
    requires
        forall|i: int| 0 <= i < t.len() ==> !is_sep(#[trigger] t[i], seps, ws),
    ensures
        split_by(t, seps, ws) == seq![t],
    decreases t.len(),
{
    if t.len() > 0 {
        let u = t.drop_last();
        assert forall|i: int| 0 <= i < u.len() implies !is_sep(#[trigger] u[i], seps, ws) by {
            assert(u[i] == t[i]);
        }
        lemma_split_unbroken(u, seps, ws);
        assert(!is_sep(t[t.len() - 1], seps, ws));
        assert(u.push(t.last()) =~= t);
        assert(seq![u].update(0, u.push(t.last())) =~= seq![t]);
    } else {
        assert(t =~= Seq::<char>::empty());
    }
}

/// Text that is empty or ends a line, followed by one more line and its `\n`, reads as its
/// lines and then that line.
pub proof fn lemma_lines_append(raw: Seq<char>, line: Seq<char>)
    requires
        raw.len() == 0 || raw.last() == '\n',
        !line.contains('\n'),
        line.len() == 0 || line.last() != '\r',
    ensures
        lines(raw + line.push('\n')) == lines(raw).push(line),
{
    let nl = seq!['\n'];
    let y = line.push('\n');
    assert forall|i: int| 0 <= i < line.len() implies !is_sep(#[trigger] line[i], nl, false) by {
        if line[i] == '\n' {
            assert(line.contains('\n'));
        }
        assert(!nl.contains(line[i]));
    }
    lemma_split_unbroken(line, nl, false);
    assert(y.drop_last() =~= line);
    assert(nl[0] == '\n');
    assert(is_sep(y.last(), nl, false));
    assert(split_by(y, nl, false) == seq![line].push(Seq::<char>::empty()));
    let f = |p: Seq<char>| strip_cr(p);
    if raw.len() == 0 {
        assert(raw + y =~= y);
        assert(split_by(raw, nl, false) == seq![Seq::<char>::empty()]);
        assert(lines(raw) =~= Seq::<Seq<char>>::empty());
        assert(seq![line].push(Seq::<char>::empty()).drop_last() =~= seq![line]);
        assert(seq![line].map_values(f) =~= seq![strip_cr(line)]);
        assert(lines(raw + y) =~= lines(raw).push(line));
    } else {
        assert(is_sep(raw.last(), nl, false));
        lemma_split_after_sep(raw, y, nl, false);
        let pr = split_by(raw, nl, false);
        assert(raw.drop_last() + Seq::<char>::empty() =~= raw.drop_last());
        assert(pr == split_by(raw.drop_last(), nl, false).push(Seq::<char>::empty()));
        let a = pr.drop_last();
        let ps = a + seq![line].push(Seq::<char>::empty());
        assert(ps.last() =~= Seq::<char>::empty());
        assert(ps.drop_last() =~= a.push(line));
        assert(a.push(line).map_values(f) =~= a.map_values(f).push(strip_cr(line)));
        assert(lines(raw) == a.map_values(f));
    }
}

/// Text that neither starts nor ends with whitespace is its own trim.
pub proof fn lemma_trim_unchanged(s: Seq<char>)
    requires
        s.len() > 0,
        !is_ws(s[0]),
        !is_ws(s.last()),
    ensures
        trim(s) == s,
{
    assert(back_ws(s, s.len() as int) == s.len());
    assert(s.take(s.len() as int) =~= s);
    assert(skip_ws(s, 0) == 0);
    assert(s.skip(0) =~= s);
}

/// Only the non-empty pieces, in order.
pub open spec fn non_empty(ps: Seq<Seq<char>>) -> Seq<Seq<char>>
    decreases ps.len(),
{
    if ps.len() == 0 {
        Seq::empty()
    } else if ps.last().len() > 0 {
        non_empty(ps.drop_last()).push(ps.last())
    } else {
        non_empty(ps.drop_last())
    }
}

/// `str::split_whitespace`.
pub open spec fn words(s: Seq<char>) -> Seq<Seq<char>> {
    non_empty(split_by(s, Seq::empty(), true))
}

pub fn is_separator(c: char, seps: &[char], ws: bool) -> (r: bool)
    ensures
        r == is_sep(c, seps@, ws),
{
    let mut i: usize = 0;
    while i < seps.len()
        invariant
            i <= seps@.len(),
            forall|j: int| 0 <= j < i ==> seps@[j] != c,
        decreases seps@.len() - i,
    {
        if seps[i] == c {
            assert(seps@.contains(c));
            return true;
        }
        i += 1;
    }
    ws && is_whitespace(c)
}

/// The pieces of `s` between separators.
pub fn split_of(s: &[char], seps: &[char], ws: bool) -> (r: Vec<Vec<char>>)
    ensures
        views(r@) == split_by(s@, seps@, ws),
        r@.len() >= 1,
{
    let mut pieces: Vec<Vec<char>> = Vec::new();
    let mut cur: Vec<char> = Vec::new();
    let mut i: usize = 0;
    while i < s.len()
        invariant
            i <= s@.len(),
            views(pieces@).push(cur@) == split_by(s@.take(i as int), seps@, ws),
        decreases s@.len() - i,
    {
        let c = s[i];
        let ghost before = views(pieces@).push(cur@);
        assert(s@.take(i + 1).drop_last() =~= s@.take(i as int));
        if is_separator(c, seps, ws) {
            pieces.push(cur);
            cur = Vec::new();
            assert(views(pieces@).push(cur@) =~= before.push(Seq::<char>::empty()));
        } else {
            cur.push(c);
            assert(views(pieces@).push(cur@) =~= before.update(
                before.len() - 1,
                before.last().push(c),
            ));
        }
        i += 1;
    }
    assert(s@.take(s@.len() as int) =~= s@);
    pieces.push(cur);
    pieces
}

pub fn non_empty_of(ps: &Vec<Vec<char>>) -> (r: Vec<Vec<char>>)
    ensures
        views(r@) == non_empty(views(ps@)),
{
    let ghost all = views(ps@);
    let mut r: Vec<Vec<char>> = Vec::new();
    let mut i: usize = 0;
    while i < ps.len()
        invariant
            i <= ps@.len(),
            all == views(ps@),
            views(r@) == non_empty(all.take(i as int)),
        decreases ps@.len() - i,
    {
        assert(all.take(i + 1).drop_last() =~= all.take(i as int));
        assert(all.take(i + 1).last() == all[i as int]);
        if ps[i].len() > 0 {
            let piece = slice_of(ps[i].as_slice(), 0, ps[i].len());
            assert(piece@ =~= all[i as int]);
            r.push(piece);
            assert(views(r@) =~= non_empty(all.take(i as int)).push(all[i as int]));
        }
        i += 1;
    }
    assert(all.take(ps@.len() as int) =~= all);
    r
}

/// `str::split_whitespace`.
pub fn words_of(s: &[char]) -> (r: Vec<Vec<char>>)
    ensures
        views(r@) == words(s@),
{
    let empty: Vec<char> = Vec::new();
    let pieces = split_of(s, empty.as_slice(), true);
    assert(empty@ =~= Seq::<char>::empty());
    non_empty_of(&pieces)
}


/// A line with the `\r` of a `\r\n` ending removed.
pub open spec fn strip_cr(p: Seq<char>) -> Seq<char> {
    if p.len() > 0 && p.last() == '\r' {
        p.drop_last()
    } else {
        p
    }
}

/// `str::lines`: split at `\n`, drop a `\r` before each `\n`, and no final empty line.
pub open spec fn lines(s: Seq<char>) -> Seq<Seq<char>> {
    let ps = split_by(s, seq!['\n'], false);
    let ended = ps.drop_last().map_values(|p: Seq<char>| strip_cr(p));
    if ps.last().len() == 0 {
        ended
    } else {
        ended.push(ps.last())
    }
}

pub fn strip_cr_of(p: &[char]) -> (r: Vec<char>)
    ensures
        r@ == strip_cr(p@),
{
    if p.len() > 0 && p[p.len() - 1] == '\r' {
        slice_of(p, 0, p.len() - 1)
    } else {
        slice_of(p, 0, p.len())
    }
}

pub fn lines_of(s: &[char]) -> (r: Vec<Vec<char>>)
    ensures
        views(r@) == lines(s@),
        r@.len() <= s@.len() + 1,
{
    let nl = vec!['\n'];
    let ps = split_of(s, nl.as_slice(), false);
    proof {
        assert(nl@ =~= seq!['\n']);
        lemma_split_nonempty(s@, nl@, false);
    }
    let ghost all = views(ps@);
    let n = ps.len();
    let mut r: Vec<Vec<char>> = Vec::new();
    let mut i: usize = 0;
    while i + 1 < n
        invariant
            n == ps@.len(),
            n >= 1,
            i + 1 <= n,
            all == views(ps@),
            views(r@) == all.drop_last().take(i as int).map_values(|p: Seq<char>| strip_cr(p)),
            r@.len() == i,
        decreases n - i,
    {
        r.push(strip_cr_of(ps[i].as_slice()));
        assert(all.drop_last().take(i + 1).map_values(|p: Seq<char>| strip_cr(p)) =~= all.drop_last().take(
            i as int,
        ).map_values(|p: Seq<char>| strip_cr(p)).push(strip_cr(all[i as int])));
        i += 1;
    }
    assert(all.drop_last().take(i as int) =~= all.drop_last());
    if ps[n - 1].len() > 0 {
        let last = slice_of(ps[n - 1].as_slice(), 0, ps[n - 1].len());
        assert(last@ =~= all.last());
        let ghost before = views(r@);
        r.push(last);
        assert(views(r@) =~= before.push(all.last()));
        assert(views(r@) =~= all.drop_last().map_values(|p: Seq<char>| strip_cr(p)).push(
            all.last(),
        ));
    }
    r
}

/// Index of the last `c` in `s`.
pub open spec fn last_index_of(s: Seq<char>, c: char) -> Option<int>
    decreases s.len(),
{
    if s.len() == 0 {
        None
    } else if s.last() == c {
        Some(s.len() - 1)
    } else {
        last_index_of(s.drop_last(), c)
    }
}

pub proof fn lemma_last_index_of(s: Seq<char>, c: char)
    ensures
        match last_index_of(s, c) {
            Some(i) => 0 <= i < s.len() && s[i] == c && forall|j: int| i < j < s.len() ==> s[j] != c,
            None => forall|j: int| 0 <= j < s.len() ==> s[j] != c,
        },
    decreases s.len(),
{
    if s.len() > 0 && s.last() != c {
        let t = s.drop_last();
        lemma_last_index_of(t, c);
        assert forall|j: int| 0 <= j < t.len() implies t[j] == s[j] by {}
    }
}

pub fn rfind_char(s: &[char], c: char) -> (r: Option<usize>)
    ensures
        match r {
            Some(i) => last_index_of(s@, c) == Some(i as int),
            None => last_index_of(s@, c) is None,
        },
{
    let mut j: usize = s.len();
    assert(s@.take(j as int) =~= s@);
    while j > 0
        invariant
            j <= s@.len(),
            last_index_of(s@, c) == last_index_of(s@.take(j as int), c),
        decreases j,
    {
        assert(s@.take(j as int).drop_last() =~= s@.take(j - 1));
        if s[j - 1] == c {
            return Some(j - 1);
        }
        j -= 1;
    }
    None
}

/// `str::trim_end_matches` for a non-empty pattern: every trailing copy is removed.
pub open spec fn strip_suffixes(s: Seq<char>, p: Seq<char>) -> Seq<char>
    decreases s.len(),
{
    if p.len() > 0 && has_suffix(s, p) {
        strip_suffixes(s.take(s.len() - p.len()), p)
    } else {
        s
    }
}

pub fn strip_suffixes_of(s: &[char], p: &[char]) -> (r: Vec<char>)
    ensures
        r@ == strip_suffixes(s@, p@),
{
    let mut end: usize = s.len();
    assert(s@.take(end as int) =~= s@);
    while p.len() > 0 && p.len() <= end && matches_at(s, p, end - p.len())
        invariant
            end <= s@.len(),
            strip_suffixes(s@, p@) == strip_suffixes(s@.take(end as int), p@),
        decreases end,
    {
        proof {
            let t = s@.take(end as int);
            assert(t.subrange(end - p@.len(), end as int) =~= s@.subrange(end - p@.len(), end as int));
            assert(t.take(end - p@.len()) =~= s@.take(end - p@.len()));
        }
        end = end - p.len();
    }
    proof {
        let t = s@.take(end as int);
        if p@.len() > 0 && p@.len() <= end {
            assert(t.subrange(end - p@.len(), end as int) =~= s@.subrange(end - p@.len(), end as int));
        }
    }
    slice_of(s, 0, end)
}

pub open spec fn is_digit(c: char) -> bool {
    '0' <= c <= '9'
}

pub open spec fn digit_value(c: char) -> int {
    (c as u32) - ('0' as u32)
}

pub open spec fn all_digits(s: Seq<char>) -> bool {
    forall|i: int| 0 <= i < s.len() ==> is_digit(s[i])
}

/// The number a string of decimal digits spells.
pub open spec fn decimal(s: Seq<char>) -> int
    decreases s.len(),
{
    if s.len() == 0 {
        0
    } else {
        decimal(s.drop_last()) * 10 + digit_value(s.last())
    }
}

/// The digits after an optional leading `+`.
pub open spec fn unsigned_digits(s: Seq<char>) -> Seq<char> {
    if s.len() > 0 && s[0] == '+' {
        s.skip(1)
    } else {
        s
    }
}

/// `u32::from_str`.
pub open spec fn parse_u32_spec(s: Seq<char>) -> Option<u32> {
    let d = unsigned_digits(s);
    if d.len() > 0 && all_digits(d) && decimal(d) <= u32::MAX {
        Some(decimal(d) as u32)
    } else {
        None
    }
}

/// `u16::from_str`.
pub open spec fn parse_u16_spec(s: Seq<char>) -> Option<u16> {
    let d = unsigned_digits(s);
    if d.len() > 0 && all_digits(d) && decimal(d) <= u16::MAX {
        Some(decimal(d) as u16)
    } else {
        None
    }
}

/// `i64::from_str`.
pub open spec fn parse_i64_spec(s: Seq<char>) -> Option<i64> {
    let negative = s.len() > 0 && s[0] == '-';
    let d = if negative { s.skip(1) } else { unsigned_digits(s) };
    let v = if negative { -decimal(d) } else { decimal(d) };
    if d.len() > 0 && all_digits(d) && i64::MIN <= v <= i64::MAX {
        Some(v as i64)
    } else {
        None
    }
}

proof fn lemma_decimal_grows(s: Seq<char>, i: int, j: int)
    requires
        0 <= i <= j <= s.len(),
        all_digits(s),
    ensures
        decimal(s.take(i)) <= decimal(s.take(j)),
        decimal(s.take(i)) >= 0,
    decreases j - i,
{
    if i < j {
        lemma_decimal_grows(s, i, j - 1);
        assert(s.take(j).drop_last() =~= s.take(j - 1));
    } else {
        lemma_decimal_nonneg(s.take(i));
    }
}

proof fn lemma_decimal_nonneg(s: Seq<char>)
    requires
        all_digits(s),
    ensures
        decimal(s) >= 0,
    decreases s.len(),
{
    if s.len() > 0 {
        lemma_decimal_nonneg(s.drop_last());
    }
}

/// The decimal value of `d` if it is a non-empty run of digits no greater than `limit`.
fn decimal_up_to(d: &[char], limit: u64) -> (r: Option<u64>)
    ensures
        match r {
            Some(v) => d@.len() > 0 && all_digits(d@) && v == decimal(d@) && v <= limit,
            None => !(d@.len() > 0 && all_digits(d@) && decimal(d@) <= limit),
        },
{
    if d.len() == 0 {
        return None;
    }
    let mut acc: u64 = 0;
    let mut i: usize = 0;
    while i < d.len()
        invariant
            i <= d@.len(),
            all_digits(d@.take(i as int)),
            acc == decimal(d@.take(i as int)),
            acc <= limit,
        decreases d@.len() - i,
    {
        let c = d[i];
        if !('0' <= c && c <= '9') {
            return None;
        }
        let digit = (c as u32 - '0' as u32) as u64;
        assert(d@.take(i + 1).drop_last() =~= d@.take(i as int));
        let next: u128 = (acc as u128) * 10 + (digit as u128);
        if next > limit as u128 {
            proof {
                if all_digits(d@) {
                    lemma_decimal_grows(d@, i + 1, d@.len() as int);
                    assert(d@.take(d@.len() as int) =~= d@);
                }
            }
            return None;
        }
        acc = next as u64;
        i += 1;
    }
    assert(d@.take(d@.len() as int) =~= d@);
    Some(acc)
}

/// `u32::from_str`.
pub fn parse_u32(s: &[char]) -> (r: Option<u32>)
    ensures
        r == parse_u32_spec(s@),
{
    let start: usize = if s.len() > 0 && s[0] == '+' { 1 } else { 0 };
    let d = slice_of(s, start, s.len());
    assert(d@ =~= unsigned_digits(s@));
    match decimal_up_to(d.as_slice(), 0xffff_ffff) {
        Some(v) => Some(v as u32),
        None => None,
    }
}

/// `u16::from_str`.
pub fn parse_u16(s: &[char]) -> (r: Option<u16>)
    ensures
        r == parse_u16_spec(s@),
{
    let start: usize = if s.len() > 0 && s[0] == '+' { 1 } else { 0 };
    let d = slice_of(s, start, s.len());
    assert(d@ =~= unsigned_digits(s@));
    match decimal_up_to(d.as_slice(), 0xffff) {
        Some(v) => Some(v as u16),
        None => None,
    }
}

/// `i64::from_str`.
pub fn parse_i64(s: &[char]) -> (r: Option<i64>)
    ensures
        r == parse_i64_spec(s@),
{
    let negative = s.len() > 0 && s[0] == '-';
    let start: usize = if s.len() > 0 && (s[0] == '+' || s[0] == '-') { 1 } else { 0 };
    let d = slice_of(s, start, s.len());
    if negative {
        assert(d@ =~= s@.skip(1));
        match decimal_up_to(d.as_slice(), 0x8000_0000_0000_0000) {
            Some(v) => {
                if v == 0x8000_0000_0000_0000 {
                    Some(i64::MIN)
                } else {
                    Some(-(v as i64))
                }
            },
            None => None,
        }
    } else {
        assert(d@ =~= unsigned_digits(s@));
        match decimal_up_to(d.as_slice(), 0x7fff_ffff_ffff_ffff) {
            Some(v) => Some(v as i64),
            None => None,
        }
    }
}

/// Whether every character of the text is ASCII.
pub open spec fn all_ascii(s: Seq<char>) -> bool {
    forall|i: int| 0 <= i < s.len() ==> (#[trigger] s[i] as u32) < 128
}

/// `char::to_ascii_uppercase`.
pub open spec fn upper_ascii(c: char) -> char {
    if 'a' <= c <= 'z' {
        ((c as u32) - 32) as char
    } else {
        c
    }
}

/// Every character upper-cased as ASCII.
pub open spec fn upper_ascii_seq(s: Seq<char>) -> Seq<char> {
    s.map_values(|c: char| upper_ascii(c))
}

/// What `str::to_lowercase` gives for a string: full Unicode case mapping.
pub uninterp spec fn lowercase(s: Seq<char>) -> Seq<char>;

/// What `str::to_lowercase` gives, spelled out where it is plain: ASCII text maps letter by
/// letter to its ASCII lower case; other text goes by `lowercase`.
pub open spec fn lowered(s: Seq<char>) -> Seq<char> {
    if all_ascii(s) {
        lower_ascii_seq(s)
    } else {
        lowercase(s)
    }
}

/// Calls `str::to_lowercase`. Its result is a function of the argument alone, named
/// `lowercase`. Unicode maps each ASCII letter to its ASCII counterpart and leaves every
/// other ASCII character alone, so for ASCII text the result is stated; for other text
/// nothing more is claimed.
#[verifier::external_body]
pub(crate) fn lowercase_of(s: &str) -> (r: String)
    ensures
        r@ == lowercase(s@),
        all_ascii(s@) ==> r@ == lower_ascii_seq(s@),
{
    s.to_lowercase()
}

/// `a` followed by `b`.
pub fn concat(a: &[char], b: &[char]) -> (r: Vec<char>)
    ensures
        r@ == a@ + b@,
{
    let mut r = slice_of(a, 0, a.len());
    let mut i: usize = 0;
    while i < b.len()
        invariant
            i <= b@.len(),
            r@ == a@ + b@.take(i as int),
        decreases b@.len() - i,
    {
        r.push(b[i]);
        assert(a@ + b@.take(i + 1) =~= (a@ + b@.take(i as int)).push(b@[i as int]));
        i += 1;
    }
    assert(b@.take(b@.len() as int) =~= b@);
    r
}

/// The character for a decimal digit.
pub open spec fn digit_char(d: int) -> char {
    (('0' as u32) + d) as char
}

/// The decimal spelling of a number, as `{}` formats it.
pub open spec fn decimal_digits(n: nat) -> Seq<char>
    decreases n,
{
    if n < 10 {
        seq![digit_char(n as int)]
    } else {
        decimal_digits(n / 10).push(digit_char((n % 10) as int))
    }
}

/// Formats a number in decimal.
pub fn decimal_string(n: u64) -> (r: Vec<char>)
    ensures
        r@ == decimal_digits(n as nat),
    decreases n,
{
    let d = (n % 10) as u8;
    let c = (48u8 + d) as char;
    assert(c == digit_char((n % 10) as int));
    if n < 10 {
        vec![c]
    } else {
        let mut r = decimal_string(n / 10);
        r.push(c);
        r
    }
}

} // verus!
