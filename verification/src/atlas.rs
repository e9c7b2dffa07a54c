//! Where each rasterised icon sits in the shared icon atlas.
//!
//! Icons are packed on shelves: left to right along a row whose height is the tallest icon
//! in it, a full row starting a new one above. A gap of `PAD` pixels is kept around each, so
//! bilinear filtering at the edge of one cannot pick up the next. Once an icon no longer
//! fits the atlas is closed for good: drawing nothing is better than corrupting it.
//! Rasterising an icon and uploading its pixels is the caller's part; where it goes is
//! decided here.
use vstd::prelude::*;
use crate::text::{chars_of, same};

verus! {

/// Side of the atlas, in pixels.
pub const ATLAS: u32 = 1024;

/// The gap kept between packed icons.
pub const PAD: u32 = 2;

/// The smallest and largest size an icon is rasterised at, in physical pixels.
pub const MIN_ICON_PX: u32 = 4;
pub const MAX_ICON_PX: u32 = 256;

/// One rasterisation's square in the atlas: its top-left corner and its side, in pixels.
#[derive(Clone, Copy, Debug, PartialEq, Eq, Structural)]
pub struct Placement {
    pub x: u32,
    pub y: u32,
    pub px: u32,
}

/// The shelf being filled: where the next icon goes, how tall the row is so far, and
/// whether the atlas has run out of room.
#[derive(Clone, Copy, Debug, PartialEq, Eq, Structural)]
pub struct Shelf {
    pub x: u32,
    pub y: u32,
    pub height: u32,
    pub full: bool,
}

/// The size an icon is rasterised at, from its requested size rounded to whole pixels.
pub fn icon_px(rounded: u32) -> (r: u32)
    ensures
        r == (if rounded < MIN_ICON_PX {
            MIN_ICON_PX
        } else if rounded > MAX_ICON_PX {
            MAX_ICON_PX
        } else {
            rounded
        }),
{
    if rounded < MIN_ICON_PX {
        MIN_ICON_PX
    } else if rounded > MAX_ICON_PX {
        MAX_ICON_PX
    } else {
        rounded
    }
}

/// What placing a `px`-sized icon does to the shelf, and where the icon goes, if anywhere.
pub open spec fn advance(s: Shelf, px: u32) -> (Shelf, Option<Placement>) {
    if s.full {
        (s, None)
    } else {
        let wraps = s.x + px + PAD > ATLAS;
        let x: u32 = if wraps { PAD } else { s.x };
        let y: u32 = if wraps { (s.y + s.height + PAD) as u32 } else { s.y };
        let h: u32 = if wraps { 0 } else { s.height };
        if y + px + PAD > ATLAS {
            (Shelf { x, y, height: h, full: true }, None)
        } else {
            (
                Shelf {
                    x: (x + px + PAD) as u32,
                    y,
                    height: if h < px { px } else { h },
                    full: false,
                },
                Some(Placement { x, y, px }),
            )
        }
    }
}

/// The square lies inside the atlas, with the gap kept at every edge.
pub open spec fn inside(p: Placement) -> bool {
    &&& PAD <= p.x
    &&& PAD <= p.y
    &&& p.x + p.px + PAD <= ATLAS
    &&& p.y + p.px + PAD <= ATLAS
}

/// The two squares are at least the gap apart, across or down.
pub open spec fn apart(p: Placement, q: Placement) -> bool {
    ||| p.x + p.px + PAD <= q.x
    ||| q.x + q.px + PAD <= p.x
    ||| p.y + p.px + PAD <= q.y
    ||| q.y + q.px + PAD <= p.y
}

/// A placed icon is behind the shelf: in a finished row below it, or earlier in its row.
pub open spec fn behind(p: Placement, s: Shelf) -> bool {
    ||| p.y + p.px + PAD <= s.y
    ||| (p.y == s.y && p.x + p.px + PAD <= s.x && p.px <= s.height)
}

/// The key an icon's rasterisation is found by: its name, filled or outlined, and its size.
pub open spec fn key_of(e: (Seq<char>, bool, u32, Placement)) -> (Seq<char>, bool, u32) {
    (e.0, e.1, e.2)
}

/// The rasterised icons' squares, and the shelf the next one goes on.
pub struct IconAtlas {
    entries: Vec<(String, bool, u32, Placement)>,
    shelf: Shelf,
}

impl IconAtlas {
    /// Every icon placed so far, in the order placed, with the key it is found by.
    pub closed spec fn placed(&self) -> Seq<(Seq<char>, bool, u32, Placement)> {
        self.entries@.map_values(|e: (String, bool, u32, Placement)| (e.0@, e.1, e.2, e.3))
    }

    pub closed spec fn shelf(&self) -> Shelf {
        self.shelf
    }

    /// The packing's invariant: every placed square inside the atlas, behind the shelf and
    /// apart from every other, each key placed once, and the shelf itself in range.
    pub closed spec fn wf(&self) -> bool {
        let s = self.shelf;
        let ps = self.placed();
        &&& PAD <= s.x <= ATLAS
        &&& PAD <= s.y <= ATLAS + MAX_ICON_PX + PAD
        &&& !s.full ==> s.y <= ATLAS
        &&& s.height <= MAX_ICON_PX
        &&& forall|i: int| 0 <= i < ps.len() ==> {
            &&& #[trigger] ps[i].3.px == ps[i].2
            &&& ps[i].2 <= MAX_ICON_PX
            &&& inside(ps[i].3)
            &&& behind(ps[i].3, s)
        }
        &&& forall|i: int, j: int|
            0 <= i < ps.len() && 0 <= j < ps.len() && i != j ==> apart(
                #[trigger] ps[i].3,
                #[trigger] ps[j].3,
            ) && key_of(ps[i]) != key_of(ps[j])
    }

    /// An empty atlas, its first shelf in the corner.
    pub fn new() -> (r: IconAtlas)
        ensures
            r.wf(),
            r.placed().len() == 0,
            r.shelf() == (Shelf { x: PAD, y: PAD, height: 0, full: false }),
    {
        let r = IconAtlas {
            entries: Vec::new(),
            shelf: Shelf { x: PAD, y: PAD, height: 0, full: false },
        };
        assert(r.placed() =~= Seq::empty());
        r
    }

    /// Whether the atlas has run out of room.
    pub fn is_full(&self) -> (r: bool)
        ensures
            r == self.shelf().full,
    {
        self.shelf.full
    }

    /// Where a rasterisation already placed sits, if it was.
    pub fn lookup(&self, name: &str, filled: bool, px: u32) -> (r: Option<Placement>)
        requires
            self.wf(),
        ensures
            match r {
                Some(p) => exists|i: int|
                    0 <= i < self.placed().len() && #[trigger] key_of(self.placed()[i]) == (
                        name@,
                        filled,
                        px,
                    ) && self.placed()[i].3 == p,
                None => forall|i: int|
                    0 <= i < self.placed().len() ==> #[trigger] key_of(self.placed()[i]) != (
                        name@,
                        filled,
                        px,
                    ),
            },
    {
        let wanted = chars_of(name);
        let mut i: usize = 0;
        while i < self.entries.len()
            invariant
                i <= self.entries@.len(),
                wanted@ == name@,
                self.placed().len() == self.entries@.len(),
                forall|j: int| 0 <= j < i ==> #[trigger] key_of(self.placed()[j]) != (
                    name@,
                    filled,
                    px,
                ),
            decreases self.entries@.len() - i,
        {
            let e = &self.entries[i];
            if e.1 == filled && e.2 == px {
                let have = chars_of(e.0.as_str());
                if same(have.as_slice(), wanted.as_slice()) {
                    assert(key_of(self.placed()[i as int]) == (name@, filled, px));
                    return Some(e.3);
                }
            }
            assert(key_of(self.placed()[i as int]).0 == e.0@);
            i += 1;
        }
        None
    }

    /// Places a freshly rasterised icon, or finds where it already is.
    ///
    /// A key placed before gets its square back. Otherwise the icon goes on the shelf as
    /// `advance` says, and once one does not fit the atlas is full and places nothing more.
    pub fn reserve(&mut self, name: &str, filled: bool, px: u32) -> (r: Option<Placement>)
        requires
            old(self).wf(),
            px <= MAX_ICON_PX,
        ensures
            final(self).wf(),
            (exists|i: int|
                0 <= i < old(self).placed().len() && #[trigger] key_of(old(self).placed()[i]) == (
                    name@,
                    filled,
                    px,
                ) && r == Some(old(self).placed()[i].3)) ==> *final(self) == *old(self),
            (forall|i: int|
                0 <= i < old(self).placed().len() ==> #[trigger] key_of(old(self).placed()[i])
                    != (name@, filled, px)) ==> {
                let (s, spot) = advance(old(self).shelf(), px);
                &&& r == spot
                &&& final(self).shelf() == s
                &&& final(self).placed() == match spot {
                    Some(p) => old(self).placed().push((name@, filled, px, p)),
                    None => old(self).placed(),
                }
            },
    {
        let found = self.lookup(name, filled, px);
        if found.is_some() {
            return found;
        }
        if self.shelf.full {
            return None;
        }
        let ghost before = self.placed();
        let mut s = self.shelf;
        if s.x + px + PAD > ATLAS {
            s.x = PAD;
            s.y = s.y + s.height + PAD;
            s.height = 0;
        }
        if s.y + px + PAD > ATLAS {
            s.full = true;
            self.shelf = s;
            assert(forall|i: int| 0 <= i < before.len() ==> behind(#[trigger] before[i].3, s));
            return None;
        }
        let p = Placement { x: s.x, y: s.y, px };
        s.x = s.x + px + PAD;
        if s.height < px {
            s.height = px;
        }
        self.shelf = s;
        self.entries.push((name.to_string(), filled, px, p));
        proof {
            let ps = self.placed();
            assert(ps =~= before.push((name@, filled, px, p)));
            assert forall|i: int| 0 <= i < ps.len() implies behind(#[trigger] ps[i].3, s) by {
                if i < before.len() {
                    assert(ps[i] == before[i]);
                }
            }
            assert forall|i: int, j: int|
                0 <= i < ps.len() && 0 <= j < ps.len() && i != j implies apart(
                #[trigger] ps[i].3,
                #[trigger] ps[j].3,
            ) && key_of(ps[i]) != key_of(ps[j]) by {
                if i < before.len() {
                    assert(ps[i] == before[i]);
                }
                if j < before.len() {
                    assert(ps[j] == before[j]);
                }
            }
        }
        Some(p)
    }
}

/// Two icons in the atlas never share a pixel, nor come within the gap of each other, and
/// every one lies wholly inside it.
pub proof fn lemma_placements_apart(atlas: &IconAtlas, i: int, j: int)
    requires
        atlas.wf(),
        0 <= i < atlas.placed().len(),
        0 <= j < atlas.placed().len(),
        i != j,
    ensures
        apart(atlas.placed()[i].3, atlas.placed()[j].3),
        inside(atlas.placed()[i].3),
        inside(atlas.placed()[j].3),
{
}

/// Once an icon is placed, looking it up finds that square and no other: each key has one
/// placement in the atlas.
pub proof fn lemma_placed_is_found(
    atlas: &IconAtlas,
    name: Seq<char>,
    filled: bool,
    px: u32,
    p: Placement,
)
    requires
        atlas.wf(),
        atlas.placed().len() > 0,
        atlas.placed().last() == (name, filled, px, p),
    ensures
        forall|i: int|
            0 <= i < atlas.placed().len() && #[trigger] key_of(atlas.placed()[i]) == (
                name,
                filled,
                px,
            ) ==> atlas.placed()[i].3 == p,
{
    let ps = atlas.placed();
    assert forall|i: int|
        0 <= i < ps.len() && #[trigger] key_of(ps[i]) == (name, filled, px) implies ps[i].3
        == p by {
        if i != ps.len() - 1 {
            let j = ps.len() - 1;
            assert(apart(ps[i].3, ps[j].3) && key_of(ps[i]) != key_of(ps[j]));
        }
    }
}

} // verus!
