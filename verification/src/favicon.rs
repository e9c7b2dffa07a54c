//! Finding the icon a remote project serves.
//!
//! Most sites declare their icon in a `<link rel="icon">` and never serve `/favicon.ico`,
//! so the page is read, what it declares is tried first, and the conventional path last.
//! Fetching and caching the bytes is the caller's part; reading the page, resolving the
//! links and judging what came back is this module's.
use vstd::prelude::*;
use crate::text::{
    ascii_lower_of, chars_of, concat, contains, contains_seq, has_prefix, index_from,
    index_of_from, is_whitespace, is_ws, last_index_of, lemma_index_from_found, lemma_last_index_of,
    lemma_split_first_prefix, lemma_split_nonempty, lemma_trim_unchanged, lower_ascii_seq, rfind_char, same, slice_of,
    split_by, split_of, starts_with, string_of, trim, trim_of, trim_start, trim_start_of, views,
};
use std::collections::hash_map::DefaultHasher;
use std::hash::{BuildHasher, BuildHasherDefault};

verus! {

/// The scheme and authority of an HTTP URL: what precedes the first `://` and what
/// follows it up to the first `/`, `?` or `#`.
pub open spec fn origin_parts(url: Seq<char>) -> Option<(Seq<char>, Seq<char>)> {
    match index_from(url, "://"@, 0) {
        None => None,
        Some(i) => {
            let scheme = url.take(i);
            let authority = split_by(url.skip(i + 3), seq!['/', '?', '#'], false)[0];
            if (scheme == "http"@ || scheme == "https"@) && authority.len() > 0 {
                Some((scheme, authority))
            } else {
                None
            }
        },
    }
}

/// `scheme://authority` of an HTTP URL.
pub open spec fn origin_text(url: Seq<char>) -> Option<Seq<char>> {
    match origin_parts(url) {
        Some((scheme, authority)) => Some(scheme + "://"@ + authority),
        None => None,
    }
}

fn origin_chars(url: &[char]) -> (r: Option<(Vec<char>, Vec<char>)>)
    ensures
        match r {
            Some((scheme, authority)) => origin_parts(url@) == Some((scheme@, authority@)),
            None => origin_parts(url@) is None,
        },
{
    let sep = chars_of("://");
    proof {
        reveal_strlit("://");
    }
    let at = match index_of_from(url, sep.as_slice(), 0) {
        Some(at) => at,
        None => {
            return None;
        },
    };
    let n = url.len();
    assert(at + 3 <= n);
    let scheme = slice_of(url, 0, at);
    let rest = slice_of(url, at + 3, n);
    assert(scheme@ =~= url@.take(at as int));
    assert(rest@ =~= url@.skip(at + 3));
    let seps = vec!['/', '?', '#'];
    assert(seps@ =~= seq!['/', '?', '#']);
    let pieces = split_of(rest.as_slice(), seps.as_slice(), false);
    assert(views(pieces@)[0] == pieces@[0]@);
    let http = chars_of("http");
    let https = chars_of("https");
    if (same(scheme.as_slice(), http.as_slice()) || same(scheme.as_slice(), https.as_slice()))
        && pieces[0].len() > 0 {
        let authority = slice_of(pieces[0].as_slice(), 0, pieces[0].len());
        assert(authority@ =~= pieces@[0]@);
        Some((scheme, authority))
    } else {
        None
    }
}

/// The `scheme://authority` part of an HTTP URL, or `None` for anything else.
pub fn origin(url: &str) -> (r: Option<String>)
    ensures
        match r {
            Some(o) => origin_text(url@) == Some(o@),
            None => origin_text(url@) is None,
        },
{
    let text = chars_of(url);
    match origin_chars(text.as_slice()) {
        Some((scheme, authority)) => {
            let mut r = string_of(scheme.as_slice());
            r.append("://");
            r.append(string_of(authority.as_slice()).as_str());
            Some(r)
        },
        None => None,
    }
}

/// `scheme://host[:port]/favicon.ico` for an HTTP URL, or `None` for anything else.
pub fn fallback_url(url: &str) -> (r: Option<String>)
    ensures
        match r {
            Some(f) => origin_text(url@) matches Some(o) && f@ == o + "/favicon.ico"@,
            None => origin_text(url@) is None,
        },
{
    match origin(url) {
        Some(o) => {
            let mut r = o;
            r.append("/favicon.ico");
            Some(r)
        },
        None => None,
    }
}

/// An `href` from a page at `page` as an absolute URL: as written when it already is one,
/// nothing for a `data:` URI (already the image), otherwise against the page's origin, or
/// against the page's directory for a relative path.
pub open spec fn resolved(href_raw: Seq<char>, page: Seq<char>) -> Option<Seq<char>> {
    let href = trim(href_raw);
    if has_prefix(href, "http://"@) || has_prefix(href, "https://"@) {
        Some(href)
    } else if has_prefix(href, "data:"@) {
        None
    } else {
        match origin_parts(page) {
            None => None,
            Some((scheme, authority)) => {
                let origin = scheme + "://"@ + authority;
                if has_prefix(href, "//"@) {
                    Some(scheme + "://"@ + href.skip(2))
                } else if has_prefix(href, "/"@) {
                    Some(origin + href)
                } else {
                    let path = split_by(page, seq!['?', '#'], false)[0];
                    let base = match last_index_of(path, '/') {
                        Some(at) if at > origin.len() => path.take(at),
                        _ => origin,
                    };
                    Some(base + "/"@ + href)
                }
            },
        }
    }
}

/// Turns an `href` from a page into an absolute URL.
pub fn absolute(href: &str, page_url: &str) -> (r: Option<String>)
    ensures
        match r {
            Some(u) => resolved(href@, page_url@) == Some(u@),
            None => resolved(href@, page_url@) is None,
        },
{
    let raw = chars_of(href);
    let h = trim_of(raw.as_slice());
    let http = chars_of("http://");
    let https = chars_of("https://");
    let data = chars_of("data:");
    if starts_with(h.as_slice(), http.as_slice()) || starts_with(h.as_slice(), https.as_slice()) {
        return Some(string_of(h.as_slice()));
    }
    if starts_with(h.as_slice(), data.as_slice()) {
        return None;
    }
    let page = chars_of(page_url);
    let (scheme, authority) = match origin_chars(page.as_slice()) {
        Some(parts) => parts,
        None => {
            return None;
        },
    };
    let sep = chars_of("://");
    let scheme_sep = concat(scheme.as_slice(), sep.as_slice());
    let origin = concat(scheme_sep.as_slice(), authority.as_slice());
    let double = chars_of("//");
    let single = chars_of("/");
    proof {
        reveal_strlit("//");
        reveal_strlit("/");
    }
    if starts_with(h.as_slice(), double.as_slice()) {
        let rest = slice_of(h.as_slice(), 2, h.len());
        assert(rest@ =~= h@.skip(2));
        let all = concat(scheme_sep.as_slice(), rest.as_slice());
        return Some(string_of(all.as_slice()));
    }
    if starts_with(h.as_slice(), single.as_slice()) {
        let all = concat(origin.as_slice(), h.as_slice());
        return Some(string_of(all.as_slice()));
    }
    let seps = vec!['?', '#'];
    assert(seps@ =~= seq!['?', '#']);
    let pieces = split_of(page.as_slice(), seps.as_slice(), false);
    assert(views(pieces@)[0] == pieces@[0]@);
    let path = &pieces[0];
    proof {
        lemma_last_index_of(path@, '/');
    }
    let base = match rfind_char(path.as_slice(), '/') {
        Some(at) => {
            if at > origin.len() {
                slice_of(path.as_slice(), 0, at)
            } else {
                slice_of(origin.as_slice(), 0, origin.len())
            }
        },
        None => slice_of(origin.as_slice(), 0, origin.len()),
    };
    assert(path@.subrange(0, 0) =~= path@.take(0));
    assert(origin@.subrange(0, origin@.len() as int) =~= origin@);
    let with_slash = concat(base.as_slice(), single.as_slice());
    let all = concat(with_slash.as_slice(), h.as_slice());
    Some(string_of(all.as_slice()))
}


/// An attribute's value from what follows its `=`: up to the closing quote when quoted,
/// up to whitespace or `>` when bare, trimmed; nothing when there is nothing.
pub open spec fn attr_value(value: Seq<char>) -> Option<Seq<char>> {
    if value.len() == 0 {
        None
    } else {
        let q = value[0];
        if q == '"' || q == '\'' {
            Some(trim(split_by(value.skip(1), seq![q], false)[0]))
        } else {
            Some(trim(split_by(value, seq!['>'], true)[0]))
        }
    }
}

/// The value of attribute `name` in `tag`, looking from `cursor` on. `name` matches
/// regardless of case, only as a whole attribute name (after whitespace or `<`) followed
/// by `=`.
pub open spec fn attr_from(tag: Seq<char>, name: Seq<char>, cursor: int) -> Option<Seq<char>>
    decreases tag.len() - cursor,
{
    if name.len() == 0 || cursor < 0 || cursor > tag.len() {
        None
    } else {
        match index_from(lower_ascii_seq(tag), name, cursor) {
            None => None,
            Some(at) => {
                proof {
                    lemma_index_from_found(lower_ascii_seq(tag), name, cursor);
                }
                let next = at + name.len();
                let before_ok = at == 0 || is_ws(tag[at - 1]) || tag[at - 1] == '<';
                let rest = trim_start(tag.skip(next));
                if !before_ok || !has_prefix(rest, "="@) {
                    attr_from(tag, name, next)
                } else {
                    attr_value(trim_start(rest.skip(1)))
                }
            },
        }
    }
}

fn value_of(value: &[char]) -> (r: Option<Vec<char>>)
    ensures
        match r {
            Some(v) => attr_value(value@) == Some(v@),
            None => attr_value(value@) is None,
        },
{
    if value.len() == 0 {
        return None;
    }
    let q = value[0];
    if q == '"' || q == '\'' {
        let inner = slice_of(value, 1, value.len());
        assert(inner@ =~= value@.skip(1));
        let quote = vec![q];
        assert(quote@ =~= seq![q]);
        let pieces = split_of(inner.as_slice(), quote.as_slice(), false);
        assert(views(pieces@)[0] == pieces@[0]@);
        Some(trim_of(pieces[0].as_slice()))
    } else {
        let close = vec!['>'];
        assert(close@ =~= seq!['>']);
        let pieces = split_of(value, close.as_slice(), true);
        assert(views(pieces@)[0] == pieces@[0]@);
        Some(trim_of(pieces[0].as_slice()))
    }
}

/// The value of an attribute inside a single tag, quoted or bare.
pub fn attribute(tag: &[char], name: &[char]) -> (r: Option<Vec<char>>)
    requires
        name@.len() > 0,
    ensures
        match r {
            Some(v) => attr_from(tag@, name@, 0) == Some(v@),
            None => attr_from(tag@, name@, 0) is None,
        },
{
    let lower = ascii_lower_of(tag);
    let n = tag.len();
    let equals = chars_of("=");
    proof {
        reveal_strlit("=");
    }
    let mut cursor: usize = 0;
    while cursor <= n
        invariant
            n == tag@.len(),
            name@.len() > 0,
            lower@ == lower_ascii_seq(tag@),
            equals@ == "="@,
            equals@.len() == 1,
            attr_from(tag@, name@, 0) == attr_from(tag@, name@, cursor as int),
        decreases n + 1 - cursor,
    {
        let at = match index_of_from(lower.as_slice(), name, cursor) {
            Some(at) => at,
            None => {
                return None;
            },
        };
        proof {
            lemma_index_from_found(lower_ascii_seq(tag@), name@, cursor as int);
        }
        let next = at + name.len();
        let before_ok = at == 0 || is_whitespace(tag[at - 1]) || tag[at - 1] == '<';
        let after = slice_of(tag, next, n);
        assert(after@ =~= tag@.skip(next as int));
        let rest = trim_start_of(after.as_slice());
        if !before_ok || !starts_with(rest.as_slice(), equals.as_slice()) {
            cursor = next;
        } else {
            let past = slice_of(rest.as_slice(), 1, rest.len());
            assert(past@ =~= rest@.skip(1));
            let value = trim_start_of(past.as_slice());
            return value_of(value.as_slice());
        }
    }
    None
}

/// Where scanning a page for `<link>` tags has got to: the icons found so far and the
/// touch icons, which are kept for last.
pub open spec fn icons_from(
    html: Seq<char>,
    cursor: int,
    found: Seq<Seq<char>>,
    touch: Seq<Seq<char>>,
) -> (Seq<Seq<char>>, Seq<Seq<char>>)
    decreases html.len() - cursor,
{
    let lower = lower_ascii_seq(html);
    if cursor < 0 || cursor > html.len() {
        (found, touch)
    } else {
        match index_from(lower, "<link"@, cursor) {
            None => (found, touch),
            Some(start) => match index_from(lower, ">"@, start) {
                None => (found, touch),
                Some(end) => {
                    proof {
                        lemma_index_from_found(lower, "<link"@, cursor);
                        lemma_index_from_found(lower, ">"@, start);
                        reveal_strlit(">");
                    }
                    let next = end + 1;
                    match attr_from(lower.subrange(start, end), "rel"@, 0) {
                        None => icons_from(html, next, found, touch),
                        Some(rel) => if !contains_seq(rel, "icon"@) {
                            icons_from(html, next, found, touch)
                        } else {
                            match attr_from(html.subrange(start, end), "href"@, 0) {
                                None => icons_from(html, next, found, touch),
                                Some(href) => if href.len() == 0 {
                                    icons_from(html, next, found, touch)
                                } else if contains_seq(rel, "apple-touch"@) {
                                    icons_from(html, next, found, touch.push(href))
                                } else {
                                    icons_from(html, next, found.push(href), touch)
                                },
                            }
                        },
                    }
                },
            },
        }
    }
}

/// The `href` of every `<link>` whose `rel` mentions an icon, in document order, with
/// touch icons after the rest.
pub open spec fn declared(html: Seq<char>) -> Seq<Seq<char>> {
    let (found, touch) = icons_from(html, 0, Seq::empty(), Seq::empty());
    found + touch
}

/// The `href`s of every `<link>` whose `rel` mentions an icon, in document order.
///
/// A touch icon is a last resort: it is meant for a home screen, so it is large and often
/// has its corners pre-rounded for a platform that is not this one.
pub fn declared_icons(html: &str) -> (r: Vec<String>)
    ensures
        r@.map_values(|s: String| s@) == declared(html@),
{
    let text = chars_of(html);
    let lower = ascii_lower_of(text.as_slice());
    let n = text.len();
    let link = chars_of("<link");
    let close = chars_of(">");
    let rel_name = chars_of("rel");
    let href_name = chars_of("href");
    let icon = chars_of("icon");
    let apple = chars_of("apple-touch");
    proof {
        reveal_strlit(">");
        reveal_strlit("rel");
        reveal_strlit("href");
    }
    let mut found: Vec<Vec<char>> = Vec::new();
    let mut touch: Vec<Vec<char>> = Vec::new();
    let mut cursor: usize = 0;
    assert(views(found@) =~= Seq::<Seq<char>>::empty());
    assert(views(touch@) =~= Seq::<Seq<char>>::empty());
    while cursor <= n
        invariant
            n == text@.len(),
            text@ == html@,
            lower@ == lower_ascii_seq(html@),
            link@ == "<link"@,
            close@ == ">"@,
            close@.len() == 1,
            rel_name@ == "rel"@,
            rel_name@.len() == 3,
            href_name@ == "href"@,
            href_name@.len() == 4,
            icon@ == "icon"@,
            apple@ == "apple-touch"@,
            icons_from(html@, 0, Seq::empty(), Seq::empty()) == icons_from(
                html@,
                cursor as int,
                views(found@),
                views(touch@),
            ),
        ensures
            icons_from(html@, 0, Seq::empty(), Seq::empty()) == (views(found@), views(touch@)),
        decreases n + 1 - cursor,
    {
        let start = match index_of_from(lower.as_slice(), link.as_slice(), cursor) {
            Some(s) => s,
            None => {
                assert(icons_from(html@, cursor as int, views(found@), views(touch@)) == (
                    views(found@),
                    views(touch@),
                ));
                break;
            },
        };
        let end = match index_of_from(lower.as_slice(), close.as_slice(), start) {
            Some(e) => e,
            None => {
                assert(icons_from(html@, cursor as int, views(found@), views(touch@)) == (
                    views(found@),
                    views(touch@),
                ));
                break;
            },
        };
        proof {
            lemma_index_from_found(lower@, link@, cursor as int);
            lemma_index_from_found(lower@, close@, start as int);
        }
        let next = end + 1;
        let tag = slice_of(lower.as_slice(), start, end);
        let as_written = slice_of(text.as_slice(), start, end);
        cursor = next;
        let rel = match attribute(tag.as_slice(), rel_name.as_slice()) {
            Some(rel) => rel,
            None => {
                continue;
            },
        };
        if !contains(rel.as_slice(), icon.as_slice()) {
            continue;
        }
        let href = match attribute(as_written.as_slice(), href_name.as_slice()) {
            Some(href) => href,
            None => {
                continue;
            },
        };
        if href.len() == 0 {
            continue;
        }
        if contains(rel.as_slice(), apple.as_slice()) {
            let ghost before = views(touch@);
            touch.push(href);
            assert(views(touch@) =~= before.push(href@));
        } else {
            let ghost before = views(found@);
            found.push(href);
            assert(views(found@) =~= before.push(href@));
        }
    }
    let mut out: Vec<String> = Vec::new();
    let mut i: usize = 0;
    while i < found.len()
        invariant
            i <= found@.len(),
            out@.map_values(|s: String| s@) == views(found@).take(i as int),
        decreases found@.len() - i,
    {
        let ghost before = out@;
        out.push(string_of(found[i].as_slice()));
        assert(out@.map_values(|s: String| s@) =~= before.map_values(|s: String| s@).push(found@[i as int]@));
        assert(views(found@).take(i + 1) =~= views(found@).take(i as int).push(found@[i as int]@));
        i += 1;
    }
    assert(views(found@).take(found@.len() as int) =~= views(found@));
    let mut j: usize = 0;
    while j < touch.len()
        invariant
            j <= touch@.len(),
            out@.map_values(|s: String| s@) == views(found@) + views(touch@).take(j as int),
        decreases touch@.len() - j,
    {
        let ghost before = out@;
        out.push(string_of(touch[j].as_slice()));
        assert(out@.map_values(|s: String| s@) =~= before.map_values(|s: String| s@).push(touch@[j as int]@));
        assert(views(touch@).take(j + 1) =~= views(touch@).take(j as int).push(touch@[j as int]@));
        j += 1;
    }
    assert(views(touch@).take(touch@.len() as int) =~= views(touch@));
    out
}


/// An `href` list resolved against a page, dropping those that do not resolve.
pub open spec fn resolved_all(hrefs: Seq<Seq<char>>, page: Seq<char>) -> Seq<Seq<char>>
    decreases hrefs.len(),
{
    if hrefs.len() == 0 {
        Seq::empty()
    } else {
        let rest = resolved_all(hrefs.drop_last(), page);
        match resolved(hrefs.last(), page) {
            Some(u) => rest.push(u),
            None => rest,
        }
    }
}

/// `scheme://host[:port]/favicon.ico`, for a page with an HTTP origin.
pub open spec fn fallback_text(page: Seq<char>) -> Option<Seq<char>> {
    match origin_text(page) {
        Some(o) => Some(o + "/favicon.ico"@),
        None => None,
    }
}

/// Icon URLs to try for a page, best first: what the page declares, then the fallback.
pub open spec fn candidate_urls(html: Seq<char>, page: Seq<char>) -> Seq<Seq<char>> {
    let tail = match fallback_text(page) {
        Some(f) => seq![f],
        None => Seq::empty(),
    };
    resolved_all(declared(html) + tail, page)
}

/// Icon URLs to try, best first, always ending with `/favicon.ico` for an HTTP page.
pub fn candidates(html: &str, page_url: &str) -> (r: Vec<String>)
    ensures
        r@.map_values(|s: String| s@) == candidate_urls(html@, page_url@),
{
    let mut declared = declared_icons(html);
    let ghost hrefs = declared@.map_values(|s: String| s@);
    match fallback_url(page_url) {
        Some(fallback) => {
            declared.push(fallback);
        },
        None => {},
    }
    let ghost all = declared@.map_values(|s: String| s@);
    assert(all =~= hrefs + (match fallback_text(page_url@) {
        Some(f) => seq![f],
        None => Seq::<Seq<char>>::empty(),
    }));
    let mut out: Vec<String> = Vec::new();
    let mut i: usize = 0;
    while i < declared.len()
        invariant
            i <= declared@.len(),
            all == declared@.map_values(|s: String| s@),
            out@.map_values(|s: String| s@) == resolved_all(all.take(i as int), page_url@),
        decreases declared@.len() - i,
    {
        let ghost before = out@;
        assert(all.take(i + 1).drop_last() =~= all.take(i as int));
        match absolute(declared[i].as_str(), page_url) {
            Some(u) => {
                let ghost url = u@;
                out.push(u);
                assert(out@.map_values(|s: String| s@) =~= before.map_values(|s: String| s@).push(
                    url,
                ));
            },
            None => {},
        }
        i += 1;
    }
    assert(all.take(declared@.len() as int) =~= all);
    out
}

/// The part of a body that is examined: its first 256 bytes.
pub open spec fn head_of(bytes: Seq<u8>) -> Seq<u8> {
    if bytes.len() <= 256 {
        bytes
    } else {
        bytes.take(256)
    }
}

/// What `String::from_utf8_lossy` decodes a byte string to: valid UTF-8 as written, each
/// invalid sequence as U+FFFD.
pub uninterp spec fn utf8_lossy(bytes: Seq<u8>) -> Seq<char>;

/// Bytes that are all ASCII.
pub open spec fn all_ascii(bytes: Seq<u8>) -> bool {
    forall|i: int| 0 <= i < bytes.len() ==> bytes[i] < 128
}

/// Calls `String::from_utf8_lossy`. Its result is the named `utf8_lossy` of the bytes;
/// beyond that only what UTF-8 itself fixes is claimed: ASCII bytes decode to the same
/// characters. How invalid sequences are replaced is left unsaid.
#[verifier::external_body]
fn decode_lossy(bytes: &[u8]) -> (r: String)
    ensures
        r@ == utf8_lossy(bytes@),
        all_ascii(bytes@) ==> r@ == bytes@.map_values(|b: u8| b as char),
{
    String::from_utf8_lossy(bytes).into_owned()
}

/// The first `count` bytes.
fn prefix_bytes(bytes: &[u8], count: usize) -> (r: Vec<u8>)
    requires
        count <= bytes@.len(),
    ensures
        r@ == bytes@.take(count as int),
{
    let mut r: Vec<u8> = Vec::new();
    let mut i: usize = 0;
    while i < count
        invariant
            i <= count <= bytes@.len(),
            r@ == bytes@.take(i as int),
        decreases count - i,
    {
        r.push(bytes[i]);
        assert(bytes@.take(i + 1) =~= bytes@.take(i as int).push(bytes@[i as int]));
        i += 1;
    }
    r
}

/// A body is markup when, lower-cased and with leading whitespace dropped, its head
/// starts an HTML document and is not an SVG.
pub open spec fn is_markup(bytes: Seq<u8>) -> bool {
    let t = trim_start(lower_ascii_seq(utf8_lossy(head_of(bytes))));
    !contains_seq(t, "<svg"@) && (has_prefix(t, "<!doctype html"@) || has_prefix(t, "<html"@))
}

/// True when the body is HTML or XML rather than an image.
///
/// The common failure is a site answering every unknown path with its 200 index page. An
/// SVG is XML too, so it is recognised and allowed through.
pub fn looks_like_markup(bytes: &[u8]) -> (r: bool)
    ensures
        r == is_markup(bytes@),
{
    let end = if bytes.len() < 256 {
        bytes.len()
    } else {
        256
    };
    let head = prefix_bytes(bytes, end);
    assert(head@ =~= head_of(bytes@));
    let decoded = decode_lossy(head.as_slice());
    let text = chars_of(decoded.as_str());
    let lower = ascii_lower_of(text.as_slice());
    let trimmed = trim_start_of(lower.as_slice());
    if contains(trimmed.as_slice(), chars_of("<svg").as_slice()) {
        return false;
    }
    starts_with(trimmed.as_slice(), chars_of("<!doctype html").as_slice()) || starts_with(
        trimmed.as_slice(),
        chars_of("<html").as_slice(),
    )
}

/// Plenty for any icon, and a bound on what a hostile response can make Oracle buffer.
pub const MAX_BYTES: usize = 524288;

/// Only this much of a page is read: `<link>` tags live in `<head>`.
pub const MAX_HTML: usize = 98304;

/// A downloaded body is kept as an icon when it is not empty, not over `MAX_BYTES`, and
/// not an HTML page served in the icon's place.
pub fn usable_icon(bytes: &[u8]) -> (r: bool)
    ensures
        r == (bytes@.len() > 0 && bytes@.len() <= MAX_BYTES && !is_markup(bytes@)),
{
    bytes.len() > 0 && bytes.len() <= MAX_BYTES && !looks_like_markup(bytes)
}

/// The text of a page body, as far as it is read: its first `MAX_HTML` bytes, decoded
/// leniently so that a page in an unexpected encoding still yields its ASCII tags.
pub fn page_text(bytes: &[u8]) -> (r: String)
    ensures
        r@ == utf8_lossy(
            if bytes@.len() <= MAX_HTML {
                bytes@
            } else {
                bytes@.take(MAX_HTML as int)
            },
        ),
{
    let end = if bytes.len() <= MAX_HTML {
        bytes.len()
    } else {
        MAX_HTML
    };
    let head = prefix_bytes(bytes, end);
    assert(bytes@.len() <= MAX_HTML ==> head@ =~= bytes@);
    decode_lossy(head.as_slice())
}

/// The media type of a `Content-Type` value: before any `;`, lower-cased and trimmed.
pub open spec fn media_type(content_type: Seq<char>) -> Seq<char> {
    trim(split_by(lower_ascii_seq(content_type), seq![';'], false)[0])
}

/// The extension stored for a media type, for the image types a browser renders.
pub open spec fn ext_for_type(t: Seq<char>) -> Option<Seq<char>> {
    if t == "image/png"@ {
        Some("png"@)
    } else if t == "image/jpeg"@ || t == "image/jpg"@ {
        Some("jpg"@)
    } else if t == "image/svg+xml"@ {
        Some("svg"@)
    } else if t == "image/webp"@ {
        Some("webp"@)
    } else if t == "image/gif"@ {
        Some("gif"@)
    } else if t == "image/x-icon"@ || t == "image/vnd.microsoft.icon"@ {
        Some("ico"@)
    } else {
        None
    }
}

/// What follows the last `.` of a URL's path, or the whole path when it has none.
pub open spec fn url_suffix(url: Seq<char>) -> Seq<char> {
    let path = split_by(url, seq!['?', '#'], false)[0];
    match last_index_of(path, '.') {
        Some(at) => path.skip(at + 1),
        None => path,
    }
}

/// The extension stored for a URL suffix, whatever its case.
pub open spec fn ext_for_suffix(suffix: Seq<char>) -> Option<Seq<char>> {
    let l = lower_ascii_seq(suffix);
    if l == "png"@ {
        Some("png"@)
    } else if l == "jpg"@ || l == "jpeg"@ {
        Some("jpg"@)
    } else if l == "svg"@ {
        Some("svg"@)
    } else if l == "webp"@ {
        Some("webp"@)
    } else if l == "gif"@ {
        Some("gif"@)
    } else if l == "ico"@ {
        Some("ico"@)
    } else {
        None
    }
}

/// The extension to store an icon under: from the content type first, the URL second.
pub open spec fn extension(content_type: Seq<char>, url: Seq<char>) -> Option<Seq<char>> {
    match ext_for_type(media_type(content_type)) {
        Some(e) => Some(e),
        None => ext_for_suffix(url_suffix(url)),
    }
}

fn is_text(t: &[char], lit: &str) -> (r: bool)
    ensures
        r == (t@ == lit@),
{
    let l = chars_of(lit);
    same(t, l.as_slice())
}

/// The extension to store under, from the content type first and the URL second.
///
/// The extension is what decides a MIME type when the file is loaded back, so a wrong one
/// means an icon that downloads and then will not render. A missing `Content-Type` is
/// passed as the empty string.
pub fn extension_for(content_type: &str, url: &str) -> (r: Option<&'static str>)
    ensures
        match r {
            Some(e) => extension(content_type@, url@) == Some(e@),
            None => extension(content_type@, url@) is None,
        },
{
    let ct = chars_of(content_type);
    let lower = ascii_lower_of(ct.as_slice());
    let semi = vec![';'];
    assert(semi@ =~= seq![';']);
    let parts = split_of(lower.as_slice(), semi.as_slice(), false);
    assert(views(parts@)[0] == parts@[0]@);
    let t = trim_of(parts[0].as_slice());
    let t = t.as_slice();
    if is_text(t, "image/png") {
        return Some("png");
    } else if is_text(t, "image/jpeg") || is_text(t, "image/jpg") {
        return Some("jpg");
    } else if is_text(t, "image/svg+xml") {
        return Some("svg");
    } else if is_text(t, "image/webp") {
        return Some("webp");
    } else if is_text(t, "image/gif") {
        return Some("gif");
    } else if is_text(t, "image/x-icon") || is_text(t, "image/vnd.microsoft.icon") {
        return Some("ico");
    }
    let u = chars_of(url);
    let seps = vec!['?', '#'];
    assert(seps@ =~= seq!['?', '#']);
    let pieces = split_of(u.as_slice(), seps.as_slice(), false);
    assert(views(pieces@)[0] == pieces@[0]@);
    let path = pieces[0].as_slice();
    proof {
        lemma_last_index_of(path@, '.');
    }
    let suffix = match rfind_char(path, '.') {
        Some(at) => {
            let s = slice_of(path, at + 1, path.len());
            assert(s@ =~= path@.skip(at + 1));
            s
        },
        None => slice_of(path, 0, path.len()),
    };
    assert(path@.subrange(0, path@.len() as int) =~= path@);
    let l = ascii_lower_of(suffix.as_slice());
    let l = l.as_slice();
    if is_text(l, "png") {
        Some("png")
    } else if is_text(l, "jpg") || is_text(l, "jpeg") {
        Some("jpg")
    } else if is_text(l, "svg") {
        Some("svg")
    } else if is_text(l, "webp") {
        Some("webp")
    } else if is_text(l, "gif") {
        Some("gif")
    } else if is_text(l, "ico") {
        Some("ico")
    } else {
        None
    }
}

/// What `DefaultHasher`, as `BuildHasherDefault` makes it, finishes with after hashing one
/// string. Every `DefaultHasher::new` starts from the same state, so this is a function of
/// the text for a given build of std.
pub uninterp spec fn default_hash(text: Seq<char>) -> u64;

/// Calls `BuildHasher::hash_one` of `BuildHasherDefault<DefaultHasher>` on a string. Its
/// result is named `default_hash`; nothing more is claimed of it.
#[verifier::external_body]
fn hash_text(text: &str) -> (h: u64)
    ensures
        h == default_hash(text@),
{
    BuildHasherDefault::<DefaultHasher>::default().hash_one(text)
}

/// The lower-case hexadecimal digit for `d`.
pub open spec fn hex_char(d: int) -> char {
    if d < 10 {
        (('0' as u32) + d) as char
    } else {
        (('a' as u32) + d - 10) as char
    }
}

/// The last `count` hexadecimal digits of `n`, zero-padded, as `{:0count$x}` writes a
/// number below `16^count`.
pub open spec fn hex_digits(n: nat, count: nat) -> Seq<char>
    decreases count,
{
    if count == 0 {
        Seq::empty()
    } else {
        hex_digits(n / 16, (count - 1) as nat).push(hex_char((n % 16) as int))
    }
}

fn hex_fixed(n: u64, count: u32) -> (r: Vec<char>)
    ensures
        r@ == hex_digits(n as nat, count as nat),
    decreases count,
{
    if count == 0 {
        return Vec::new();
    }
    let mut r = hex_fixed(n / 16, count - 1);
    let d = (n % 16) as u8;
    let c = if d < 10 {
        (48u8 + d) as char
    } else {
        (87u8 + d) as char
    };
    assert(c == hex_char((n % 16) as int));
    r.push(c);
    r
}

/// The cache name of a page's icon: `fav-` and the page URL's hash in sixteen hex digits.
pub open spec fn stem_text(page: Seq<char>) -> Seq<char> {
    "fav-"@ + hex_digits(default_hash(page) as nat, 16)
}

/// A stable, filesystem-safe name for a page's cached icon.
pub fn cache_stem(page_url: &str) -> (r: String)
    ensures
        r@ == stem_text(page_url@),
{
    let h = hash_text(page_url);
    let digits = hex_fixed(h, 16);
    let mut r = String::new();
    r.append("fav-");
    r.append(string_of(digits.as_slice()).as_str());
    r
}

/// The file an icon for a page is stored in: its cache name and the extension.
pub fn icon_file_name(page_url: &str, extension: &str) -> (r: String)
    ensures
        r@ == stem_text(page_url@) + "."@ + extension@,
{
    let mut r = cache_stem(page_url);
    r.append(".");
    r.append(extension);
    r
}


/// Only an HTTP URL has an origin, and the origin is how the URL begins.
pub proof fn lemma_origin_begins_url(url: Seq<char>)
    ensures
        origin_text(url) matches Some(o) ==> {
            &&& has_prefix(url, o)
            &&& has_prefix(o, "http://"@) || has_prefix(o, "https://"@)
        },
{
    reveal_strlit("://");
    reveal_strlit("http");
    reveal_strlit("https");
    reveal_strlit("http://");
    reveal_strlit("https://");
    lemma_index_from_found(url, "://"@, 0);
    if let Some(i) = index_from(url, "://"@, 0) {
        let rest = url.skip(i + 3);
        let seps = seq!['/', '?', '#'];
        lemma_split_nonempty(rest, seps, false);
        lemma_split_first_prefix(rest, seps, false);
        let scheme = url.take(i);
        let authority = split_by(rest, seps, false)[0];
        let o = scheme + "://"@ + authority;
        assert(o =~= url.subrange(0, o.len() as int));
        if scheme == "http"@ {
            assert(o.subrange(0, 7) =~= "http://"@);
        }
        if scheme == "https"@ {
            assert(o.subrange(0, 8) =~= "https://"@);
        }
    }
}

/// The candidates for an HTTP page always end with its `/favicon.ico`, whatever the page
/// declares.
pub proof fn lemma_fallback_comes_last(html: Seq<char>, page: Seq<char>)
    ensures
        fallback_text(page) matches Some(f) ==> {
            let c = candidate_urls(html, page);
            c.len() > 0 && c.last() == f
        },
{
    lemma_origin_begins_url(page);
    if let Some(f) = fallback_text(page) {
        reveal_strlit("/favicon.ico");
        reveal_strlit("http://");
        reveal_strlit("https://");
        let o = origin_text(page)->0;
        assert(f == o + "/favicon.ico"@);
        assert(f[0] == o[0]);
        if has_prefix(o, "http://"@) {
            assert(o.subrange(0, 7)[0] == o[0]);
        } else {
            assert(o.subrange(0, 8)[0] == o[0]);
        }
        assert(o[0] == 'h');
        assert(f.last() == 'o');
        lemma_trim_unchanged(f);
        assert(has_prefix(f, "http://"@) || has_prefix(f, "https://"@)) by {
            if has_prefix(o, "http://"@) {
                assert(f.subrange(0, 7) =~= o.subrange(0, 7));
            } else {
                assert(f.subrange(0, 8) =~= o.subrange(0, 8));
            }
        }
        assert(resolved(f, page) == Some(f));
        let hrefs = declared(html) + seq![f];
        assert(hrefs.drop_last() =~= declared(html));
        assert(hrefs.last() == f);
    }
}

} // verus!
