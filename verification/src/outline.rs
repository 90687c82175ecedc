//! The table of contents that a PDF document carries: its bookmarks, read off
//! the document's objects.
use crate::model::{OutlineItem, OutlineItemView};
use crate::model;
use crate::text::string_of;
use vstd::prelude::*;

verus! {

// ---------- Strings ----------

/// The character that stands for what is no character.
pub open spec fn replacement() -> char {
    '\u{fffd}'
}

pub open spec fn high_surrogate(u: u16) -> bool {
    0xd800 <= u < 0xdc00
}

pub open spec fn low_surrogate(u: u16) -> bool {
    0xdc00 <= u < 0xe000
}

/// The character that a high and a low surrogate encode.
pub open spec fn pair(high: u16, low: u16) -> char {
    (0x10000 + (high - 0xd800) * 0x400 + (low - 0xdc00)) as char
}

/// The text that UTF-16 units encode. A surrogate without its other half gives
/// the replacement character.
pub open spec fn utf16(units: Seq<u16>) -> Seq<char>
    decreases units.len(),
{
    if units.len() == 0 {
        seq![]
    } else if high_surrogate(units[0]) && units.len() > 1 && low_surrogate(units[1]) {
        seq![pair(units[0], units[1])] + utf16(units.skip(2))
    } else if high_surrogate(units[0]) || low_surrogate(units[0]) {
        seq![replacement()] + utf16(units.skip(1))
    } else {
        seq![units[0] as char] + utf16(units.skip(1))
    }
}

/// The units that pairs of bytes make, the high byte first. A single byte at
/// the end is left out.
pub open spec fn big_endian(b: Seq<u8>) -> Seq<u16>
    decreases b.len(),
{
    if b.len() < 2 {
        seq![]
    } else {
        seq![(b[0] * 256 + b[1]) as u16] + big_endian(b.skip(2))
    }
}

/// The text of a PDF string: UTF-16 behind a byte order mark, or else one
/// character for each byte.
pub open spec fn pdf_text(b: Seq<u8>) -> Seq<char> {
    if b.len() >= 2 && b[0] == 0xfe && b[1] == 0xff {
        utf16(big_endian(b.skip(2)))
    } else {
        b.map_values(|x: u8| x as char)
    }
}

/// `char::from_u32` gives the character with the number, for every number that
/// belongs to a character.
pub assume_specification[ char::from_u32 ](i: u32) -> (r: Option<char>)
    ensures
        (i < 0xd800 || 0xe000 <= i <= 0x10ffff) ==> r == Some(i as char),
        !(i < 0xd800 || 0xe000 <= i <= 0x10ffff) ==> r is None,
;

fn scalar(i: u32) -> (r: char)
    requires
        i < 0xd800 || 0xe000 <= i <= 0x10ffff,
    ensures
        r == i as char,
{
    match char::from_u32(i) {
        Some(c) => c,
        None => '\u{fffd}',
    }
}

fn units_of(b: &[u8], from: usize) -> (r: Vec<u16>)
    requires
        from <= b@.len(),
    ensures
        r@ == big_endian(b@.skip(from as int)),
{
    let n: usize = b.len();
    let mut out: Vec<u16> = Vec::new();
    let mut i: usize = from;
    proof {
        assert(out@ + big_endian(b@.skip(from as int)) =~= big_endian(b@.skip(from as int)));
    }
    while n - i >= 2
        invariant
            n == b@.len(),
            from <= i <= n,
            big_endian(b@.skip(from as int)) == out@ + big_endian(b@.skip(i as int)),
        decreases n - i,
    {
        let unit: u16 = (b[i] as u16) * 256 + (b[i + 1] as u16);
        proof {
            let t = b@.skip(i as int);
            assert(t.skip(2) =~= b@.skip(i + 2));
            assert(t[0] == b@[i as int] && t[1] == b@[i + 1]);
            assert(unit == (t[0] * 256 + t[1]) as u16);
            let rest = big_endian(b@.skip(i + 2));
            assert(out@ + (seq![unit] + rest) =~= out@.push(unit) + rest);
        }
        out.push(unit);
        i = i + 2;
    }
    proof {
        assert(out@ + Seq::<u16>::empty() =~= out@);
    }
    out
}

fn decoded(units: &Vec<u16>) -> (r: Vec<char>)
    ensures
        r@ == utf16(units@),
{
    let n: usize = units.len();
    let mut out: Vec<char> = Vec::new();
    let mut i: usize = 0;
    proof {
        assert(units@.skip(0) =~= units@);
        assert(out@ + utf16(units@) =~= utf16(units@));
    }
    while i < n
        invariant
            n == units@.len(),
            i <= n,
            utf16(units@) == out@ + utf16(units@.skip(i as int)),
        decreases n - i,
    {
        let u = units[i];
        let ghost t = units@.skip(i as int);
        proof {
            assert(t[0] == u);
            assert(t.skip(1) =~= units@.skip(i + 1));
            if i + 1 < n {
                assert(t[1] == units@[i + 1]);
                assert(t.skip(2) =~= units@.skip(i + 2));
            }
        }
        let high = 0xd800 <= u && u < 0xdc00;
        let low = 0xdc00 <= u && u < 0xe000;
        let c: char;
        let step: usize;
        if high && n - i > 1 && 0xdc00 <= units[i + 1] && units[i + 1] < 0xe000 {
            let v = units[i + 1];
            c = scalar(0x10000 + ((u - 0xd800) as u32) * 0x400 + ((v - 0xdc00) as u32));
            step = 2;
        } else if high || low {
            c = '\u{fffd}';
            step = 1;
        } else {
            c = scalar(u as u32);
            step = 1;
        }
        proof {
            let rest = utf16(units@.skip(i + step));
            assert(utf16(t) == seq![c] + rest);
            assert(out@ + (seq![c] + rest) =~= out@.push(c) + rest);
        }
        out.push(c);
        i = i + step;
    }
    proof {
        assert(out@ + Seq::<char>::empty() =~= out@);
    }
    out
}

/// Decode a PDF string: UTF-16 with a byte order mark, or else one character
/// for each byte.
pub fn decode_pdf_string(b: &[u8]) -> (r: String)
    ensures
        r@ == pdf_text(b@),
{
    if b.len() >= 2 && b[0] == 0xfe && b[1] == 0xff {
        let units = units_of(b, 2);
        return string_of(decoded(&units).as_slice());
    }
    let mut out: Vec<char> = Vec::new();
    for i in 0..b.len()
        invariant
            out@ == b@.take(i as int).map_values(|x: u8| x as char),
    {
        let c = b[i] as char;
        proof {
            assert(b@.take(i + 1).map_values(|x: u8| x as char) =~= b@.take(i as int).map_values(
                |x: u8| x as char,
            ).push(c));
        }
        out.push(c);
    }
    assert(b@.take(b@.len() as int) =~= b@);
    string_of(out.as_slice())
}

// ---------- Bookmarks ----------

/// The number of an object of the document.
#[derive(Debug, Clone, Copy, PartialEq, Eq, Structural)]
pub struct ObjectId {
    pub number: u32,
    pub generation: u16,
}

/// One element of a destination array.
#[derive(Debug, Clone, Copy)]
pub enum Element {
    Reference(ObjectId),
    Other,
}

/// The value under a key that should hold a destination.
#[derive(Debug)]
pub enum Destination {
    Array(Vec<Element>),
    Other,
}

/// What the dictionary of one bookmark holds.
#[derive(Debug)]
pub struct Bookmark {
    pub id: ObjectId,
    /// The bytes under `Title`, where they are a string.
    pub title: Option<Vec<u8>>,
    /// The value under `Dest`.
    pub dest: Option<Destination>,
    /// The value under `D` of the dictionary to which `A` refers.
    pub action: Option<Destination>,
    /// The reference under `First`.
    pub first: Option<ObjectId>,
    /// The reference under `Next`.
    pub next: Option<ObjectId>,
}

/// The page to which a destination leads: its first element refers to it.
pub open spec fn target(d: Destination) -> Option<ObjectId> {
    match d {
        Destination::Array(a) => if a@.len() > 0 {
            match a@[0] {
                Element::Reference(id) => Some(id),
                Element::Other => None,
            }
        } else {
            None
        },
        Destination::Other => None,
    }
}

/// The number of a page in a list of pages. The last entry for it counts.
pub open spec fn page_number(pages: Seq<(ObjectId, usize)>, id: ObjectId) -> Option<int>
    decreases pages.len(),
{
    if pages.len() == 0 {
        None
    } else if pages.last().0 == id {
        Some(pages.last().1 as int)
    } else {
        page_number(pages.drop_last(), id)
    }
}

/// The page that a bookmark leads to: by its destination, or in want of one by
/// its action.
pub open spec fn dest_page(b: Bookmark, pages: Seq<(ObjectId, usize)>) -> Option<int> {
    let dest = match b.dest {
        Some(d) => Some(d),
        None => b.action,
    };
    match dest {
        Some(d) => match target(d) {
            Some(id) => page_number(pages, id),
            None => None,
        },
        None => None,
    }
}

/// The title of a bookmark, empty in want of one.
pub open spec fn title_of(b: Bookmark) -> Seq<char> {
    match b.title {
        Some(t) => pdf_text(t@),
        None => seq![],
    }
}

/// The place of a bookmark in the table.
pub open spec fn lookup(table: Seq<Bookmark>, id: ObjectId) -> Option<int>
    decreases table.len(),
{
    if table.len() == 0 {
        None
    } else if table[0].id == id {
        Some(0)
    } else {
        match lookup(table.skip(1), id) {
            Some(i) => Some(i + 1),
            None => None,
        }
    }
}

/// The outline entry of a bookmark; one without a title gives none.
pub open spec fn entry(
    b: Bookmark,
    level: int,
    pages: Seq<(ObjectId, usize)>,
) -> Seq<OutlineItemView> {
    if title_of(b).len() == 0 {
        seq![]
    } else {
        seq![
            OutlineItemView {
                level,
                title: title_of(b),
                page: match dest_page(b, pages) {
                    Some(n) => n,
                    None => 0,
                },
            },
        ]
    }
}

/// The outline from one bookmark on: its own entry, then its children one level
/// down, then the bookmarks that follow it. At most `depth` steps are taken from
/// any bookmark to another; where that is too few there is no outline.
pub open spec fn walk(
    table: Seq<Bookmark>,
    pages: Seq<(ObjectId, usize)>,
    from: Option<ObjectId>,
    level: int,
    depth: nat,
) -> Option<Seq<OutlineItemView>>
    decreases depth,
{
    match from {
        None => Some(seq![]),
        Some(id) => match lookup(table, id) {
            None => Some(seq![]),
            Some(i) => if depth == 0 {
                None
            } else {
                let b = table[i];
                match (
                    walk(table, pages, b.first, level + 1, (depth - 1) as nat),
                    walk(table, pages, b.next, level, (depth - 1) as nat),
                ) {
                    (Some(inner), Some(after)) => Some(entry(b, level, pages) + inner + after),
                    _ => None,
                }
            },
        },
    }
}

/// The outline from one bookmark on. Bookmarks that lead back to themselves
/// have none.
pub open spec fn outline(
    table: Seq<Bookmark>,
    pages: Seq<(ObjectId, usize)>,
    from: Option<ObjectId>,
    level: int,
) -> Option<Seq<OutlineItemView>> {
    walk(table, pages, from, level, table.len())
}

proof fn lemma_lookup(table: Seq<Bookmark>, id: ObjectId)
    ensures
        match lookup(table, id) {
            Some(i) => 0 <= i < table.len() && table[i].id == id,
            None => true,
        },
    decreases table.len(),
{
    if table.len() > 0 && table[0].id != id {
        lemma_lookup(table.skip(1), id);
    }
}

fn find_bookmark(table: &Vec<Bookmark>, id: ObjectId) -> (r: Option<usize>)
    ensures
        match r {
            Some(i) => lookup(table@, id) == Some(i as int) && i < table@.len(),
            None => lookup(table@, id) is None,
        },
{
    let ghost ts = table@;
    proof {
        assert(ts.skip(0) =~= ts);
    }
    for i in 0..table.len()
        invariant
            ts == table@,
            match lookup(ts.skip(i as int), id) {
                Some(k) => lookup(ts, id) == Some(k + i),
                None => lookup(ts, id) is None,
            },
    {
        proof {
            assert(ts.skip(i as int)[0] == ts[i as int]);
            assert(ts.skip(i as int).skip(1) =~= ts.skip(i + 1));
        }
        if table[i].id == id {
            return Some(i);
        }
    }
    None
}

fn find_page(pages: &Vec<(ObjectId, usize)>, id: ObjectId) -> (r: Option<usize>)
    ensures
        match r {
            Some(n) => page_number(pages@, id) == Some(n as int),
            None => page_number(pages@, id) is None,
        },
{
    let mut k: usize = pages.len();
    proof {
        assert(pages@.take(k as int) =~= pages@);
    }
    while k > 0
        invariant
            k <= pages@.len(),
            page_number(pages@, id) == page_number(pages@.take(k as int), id),
        decreases k,
    {
        proof {
            assert(pages@.take(k as int).drop_last() =~= pages@.take(k - 1));
        }
        k = k - 1;
        if pages[k].0 == id {
            return Some(pages[k].1);
        }
    }
    None
}

/// Find the page that a bookmark leads to.
pub fn resolve_dest_page(b: &Bookmark, pages: &Vec<(ObjectId, usize)>) -> (r: Option<usize>)
    ensures
        match r {
            Some(n) => dest_page(*b, pages@) == Some(n as int),
            None => dest_page(*b, pages@) is None,
        },
{
    let dest: &Option<Destination> = if b.dest.is_some() {
        &b.dest
    } else {
        &b.action
    };
    match dest {
        Some(Destination::Array(a)) => {
            if a.len() == 0 {
                return None;
            }
            match a[0] {
                Element::Reference(id) => find_page(pages, id),
                Element::Other => None,
            }
        },
        _ => None,
    }
}

/// Append the outline from one bookmark on, or say that it has no end.
fn walk_from(
    table: &Vec<Bookmark>,
    pages: &Vec<(ObjectId, usize)>,
    from: Option<ObjectId>,
    level: usize,
    depth: usize,
    out: &mut Vec<OutlineItem>,
) -> (done: bool)
    requires
        level + depth <= usize::MAX,
    ensures
        match walk(table@, pages@, from, level as int, depth as nat) {
            Some(items) => done && model::outline_items(final(out)@) == model::outline_items(
                old(out)@,
            ) + items,
            None => !done,
        },
    decreases depth,
{
    let ghost start = model::outline_items(out@);
    let ghost whole = walk(table@, pages@, from, level as int, depth as nat);
    let mut cur: Option<ObjectId> = from;
    let mut left: usize = depth;
    loop
        invariant
            left <= depth,
            level + depth <= usize::MAX,
            start == model::outline_items(old(out)@),
            match walk(table@, pages@, cur, level as int, left as nat) {
                Some(rest) => whole matches Some(items) && start + items == model::outline_items(
                    out@,
                ) + rest,
                None => whole is None,
            },
            whole == walk(table@, pages@, from, level as int, depth as nat),
        decreases left,
    {
        let id = match cur {
            None => {
                proof {
                    assert(model::outline_items(out@) + Seq::<OutlineItemView>::empty()
                        =~= model::outline_items(out@));
                }
                return true;
            },
            Some(id) => id,
        };
        let at = match find_bookmark(table, id) {
            None => {
                proof {
                    assert(model::outline_items(out@) + Seq::<OutlineItemView>::empty()
                        =~= model::outline_items(out@));
                }
                return true;
            },
            Some(i) => i,
        };
        if left == 0 {
            return false;
        }
        let b: &Bookmark = &table[at];
        let ghost before = model::outline_items(out@);
        let title = match &b.title {
            Some(t) => decode_pdf_string(t.as_slice()),
            None => String::new(),
        };
        let page: usize = match resolve_dest_page(b, pages) {
            Some(n) => n,
            None => 0,
        };
        if !is_empty(title.as_str()) {
            let item = OutlineItem { level, title, page };
            proof {
                assert(model::outline_items(out@.push(item)) =~= model::outline_items(out@).push(
                    item@,
                ));
            }
            out.push(item);
        }
        proof {
            assert(model::outline_items(out@) =~= before + entry(*b, level as int, pages@));
        }
        let ghost inner = walk(table@, pages@, b.first, level + 1, (left - 1) as nat);
        let ghost after = walk(table@, pages@, b.next, level as int, (left - 1) as nat);
        if !walk_from(table, pages, b.first, level + 1, left - 1, out) {
            return false;
        }
        proof {
            if after is Some {
                let own = entry(*b, level as int, pages@);
                assert(before + (own + inner->0 + after->0) =~= before + own + inner->0
                    + after->0);
            }
        }
        cur = b.next;
        left = left - 1;
    }
}

fn is_empty(s: &str) -> (r: bool)
    ensures
        r == (s@.len() == 0),
{
    crate::text::chars_of(s).len() == 0
}

/// Read the outline of a document from its first bookmark on: each bookmark
/// with a title, then its children, then those that follow it. A document
/// whose bookmarks lead back to themselves has no outline.
pub fn walk_outline(
    table: &Vec<Bookmark>,
    pages: &Vec<(ObjectId, usize)>,
    first: Option<ObjectId>,
) -> (r: Option<Vec<OutlineItem>>)
    ensures
        match r {
            Some(items) => outline(table@, pages@, first, 0) == Some(
                model::outline_items(items@),
            ),
            None => outline(table@, pages@, first, 0) is None,
        },
{
    let mut out: Vec<OutlineItem> = Vec::new();
    proof {
        assert(model::outline_items(out@) =~= seq![]);
    }
    if walk_from(table, pages, first, 0, table.len(), &mut out) {
        proof {
            let items = outline(table@, pages@, first, 0)->0;
            assert(Seq::<OutlineItemView>::empty() + items =~= items);
        }
        Some(out)
    } else {
        None
    }
}

// ---------- Which documents have an outline ----------

/// A way through the bookmarks: each is in the table, and leads to the next.
spec fn chain(table: Seq<Bookmark>, ids: Seq<ObjectId>) -> bool {
    &&& forall|k: int| 0 <= k < ids.len() ==> lookup(table, #[trigger] ids[k]) is Some
    &&& forall|k: int| 0 <= k < ids.len() - 1 ==> leads(table, #[trigger] ids[k], ids[k + 1])
}

/// A bookmark has the other one as its first child or as its follower.
spec fn leads(table: Seq<Bookmark>, a: ObjectId, b: ObjectId) -> bool {
    match lookup(table, a) {
        Some(i) => table[i].first == Some(b) || table[i].next == Some(b),
        None => false,
    }
}

/// Where the steps do not suffice there is a way with one step more.
proof fn lemma_long_chain(
    table: Seq<Bookmark>,
    pages: Seq<(ObjectId, usize)>,
    id: ObjectId,
    level: int,
    depth: nat,
) -> (ids: Seq<ObjectId>)
    requires
        walk(table, pages, Some(id), level, depth) is None,
    ensures
        chain(table, ids),
        ids.len() == depth + 1,
        ids[0] == id,
    decreases depth,
{
    let b = table[lookup(table, id)->0];
    if depth == 0 {
        seq![id]
    } else {
        let d = (depth - 1) as nat;
        let (next, lvl) = if walk(table, pages, b.first, level + 1, d) is None {
            (b.first, level + 1)
        } else {
            (b.next, level)
        };
        assert(walk(table, pages, next, lvl, d) is None);
        let rest = lemma_long_chain(table, pages, next->0, lvl, d);
        let ids = seq![id] + rest;
        assert forall|k: int| 0 <= k < ids.len() implies lookup(table, #[trigger] ids[k]) is Some by {
            if k > 0 {
                assert(ids[k] == rest[k - 1]);
            }
        }
        assert forall|k: int| 0 <= k < ids.len() - 1 implies leads(
            table,
            #[trigger] ids[k],
            ids[k + 1],
        ) by {
            assert(ids[k + 1] == rest[k]);
            if k > 0 {
                assert(ids[k] == rest[k - 1]);
                assert(rest[(k - 1) + 1] == rest[k]);
            }
        }
        ids
    }
}

/// A way that is longer than the table comes to some bookmark twice.
proof fn lemma_repeats(table: Seq<Bookmark>, ids: Seq<ObjectId>) -> (ab: (int, int))
    requires
        chain(table, ids),
        ids.len() > table.len(),
    ensures
        0 <= ab.0 < ab.1 < ids.len(),
        ids[ab.0] == ids[ab.1],
{
    let all = table.map_values(|b: Bookmark| b.id);
    if ids.no_duplicates() {
        ids.unique_seq_to_set();
        all.lemma_cardinality_of_set();
        assert forall|x: ObjectId| ids.to_set().contains(x) implies all.to_set().contains(x) by {
            let k = ids.index_of(x);
            assert(ids[k] == x);
            lemma_lookup(table, ids[k]);
            let i = lookup(table, ids[k])->0;
            assert(all[i] == x);
        }
        vstd::seq_lib::seq_to_set_is_finite(all);
        vstd::set_lib::lemma_len_subset(ids.to_set(), all.to_set());
    }
    let (a, b) = choose|a: int, b: int|
        0 <= a < ids.len() && 0 <= b < ids.len() && a != b && #[trigger] ids[a]
            == #[trigger] ids[b];
    if a < b {
        (a, b)
    } else {
        (b, a)
    }
}

/// From a bookmark on a way that comes back to it, no number of steps suffices.
proof fn lemma_no_end(
    table: Seq<Bookmark>,
    pages: Seq<(ObjectId, usize)>,
    ids: Seq<ObjectId>,
    ab: (int, int),
    k: int,
    level: int,
    depth: nat,
)
    requires
        chain(table, ids),
        0 <= ab.0 < ab.1 < ids.len(),
        ids[ab.0] == ids[ab.1],
        0 <= k <= ab.1,
    ensures
        walk(table, pages, Some(ids[k]), level, depth) is None,
    decreases depth,
{
    let here = if k == ab.1 {
        ab.0
    } else {
        k
    };
    assert(lookup(table, ids[here]) is Some);
    if depth > 0 {
        assert(leads(table, ids[here], ids[here + 1]));
        lemma_no_end(table, pages, ids, ab, here + 1, level, (depth - 1) as nat);
        lemma_no_end(table, pages, ids, ab, here + 1, level + 1, (depth - 1) as nat);
    }
}

proof fn lemma_more_steps(
    table: Seq<Bookmark>,
    pages: Seq<(ObjectId, usize)>,
    from: Option<ObjectId>,
    level: int,
    d: nat,
    e: nat,
)
    requires
        d <= e,
        walk(table, pages, from, level, d) is Some,
    ensures
        walk(table, pages, from, level, e) == walk(table, pages, from, level, d),
    decreases d,
{
    if let Some(id) = from {
        if let Some(i) = lookup(table, id) {
            let b = table[i];
            lemma_more_steps(
                table,
                pages,
                b.first,
                level + 1,
                (d - 1) as nat,
                (e - 1) as nat,
            );
            lemma_more_steps(table, pages, b.next, level, (d - 1) as nat, (e - 1) as nat);
        }
    }
}

/// The outline is there whenever following the bookmarks comes to an end, after
/// however many steps, and it is what they give.
pub proof fn outline_is_complete(
    table: Seq<Bookmark>,
    pages: Seq<(ObjectId, usize)>,
    from: Option<ObjectId>,
    level: int,
    depth: nat,
)
    requires
        walk(table, pages, from, level, depth) is Some,
    ensures
        outline(table, pages, from, level) == walk(table, pages, from, level, depth),
{
    if outline(table, pages, from, level) is None {
        let id = from->0;
        let ids = lemma_long_chain(table, pages, id, level, table.len());
        let ab = lemma_repeats(table, ids);
        lemma_no_end(table, pages, ids, ab, 0, level, depth);
    } else if depth <= table.len() {
        lemma_more_steps(table, pages, from, level, depth, table.len());
    } else {
        lemma_more_steps(table, pages, from, level, table.len(), depth);
    }
}

/// Every entry of an outline has a title, and stands at the level of its start
/// or below.
pub proof fn outline_entries_have_titles(
    table: Seq<Bookmark>,
    pages: Seq<(ObjectId, usize)>,
    from: Option<ObjectId>,
    level: int,
    depth: nat,
    i: int,
)
    requires
        walk(table, pages, from, level, depth) matches Some(items) && 0 <= i < items.len(),
    ensures
        walk(table, pages, from, level, depth)->0[i].title.len() > 0,
        walk(table, pages, from, level, depth)->0[i].level >= level,
    decreases depth,
{
    let b = table[lookup(table, from->0)->0];
    let d = (depth - 1) as nat;
    let own = entry(b, level, pages);
    let inner = walk(table, pages, b.first, level + 1, d)->0;
    let after = walk(table, pages, b.next, level, d)->0;
    if i < own.len() {
    } else if i < own.len() + inner.len() {
        outline_entries_have_titles(table, pages, b.first, level + 1, d, i - own.len());
    } else {
        outline_entries_have_titles(
            table,
            pages,
            b.next,
            level,
            d,
            i - own.len() - inner.len(),
        );
    }
}

// ---------- What is read back ----------

/// The UTF-16 units of a character.
pub open spec fn units(c: char) -> Seq<u16> {
    let n = c as int;
    if n < 0x10000 {
        seq![n as u16]
    } else {
        seq![
            (0xd800 + (n - 0x10000) / 0x400) as u16,
            (0xdc00 + (n - 0x10000) % 0x400) as u16,
        ]
    }
}

/// The UTF-16 units of a text.
pub open spec fn encoded(s: Seq<char>) -> Seq<u16>
    decreases s.len(),
{
    if s.len() == 0 {
        seq![]
    } else {
        units(s[0]) + encoded(s.skip(1))
    }
}

/// The bytes of some units, the high byte first.
pub open spec fn bytes(u: Seq<u16>) -> Seq<u8>
    decreases u.len(),
{
    if u.len() == 0 {
        seq![]
    } else {
        seq![(u[0] as int / 256) as u8, (u[0] as int % 256) as u8] + bytes(u.skip(1))
    }
}

proof fn lemma_units(c: char, rest: Seq<u16>)
    ensures
        utf16(units(c) + rest) == seq![c] + utf16(rest),
{
    let all = units(c) + rest;
    let n = c as int;
    if n < 0x10000 {
        assert(all[0] == n as u16);
        assert(all.skip(1) =~= rest);
        assert(all[0] as char == c);
    } else {
        let high = all[0];
        let low = all[1];
        assert(high == 0xd800 + (n - 0x10000) / 0x400);
        assert(low == 0xdc00 + (n - 0x10000) % 0x400);
        assert(all.skip(2) =~= rest);
        assert(pair(high, low) as int == n);
    }
}

proof fn lemma_decodes(s: Seq<char>)
    ensures
        utf16(encoded(s)) == s,
    decreases s.len(),
{
    if s.len() == 0 {
        assert(utf16(encoded(s)) =~= s);
    } else {
        lemma_decodes(s.skip(1));
        lemma_units(s[0], encoded(s.skip(1)));
        assert(seq![s[0]] + s.skip(1) =~= s);
    }
}

proof fn lemma_bytes(u: Seq<u16>)
    ensures
        big_endian(bytes(u)) == u,
    decreases u.len(),
{
    let b = bytes(u);
    if u.len() == 0 {
        assert(big_endian(b) =~= u);
    } else {
        let rest = u.skip(1);
        lemma_bytes(rest);
        assert(b.skip(2) =~= bytes(rest));
        assert(b[0] == u[0] as int / 256 && b[1] == u[0] as int % 256);
        assert((b[0] * 256 + b[1]) as u16 == u[0]);
        assert(seq![u[0]] + rest =~= u);
    }
}

/// Every title can be read: one in UTF-16 behind its byte order mark comes back
/// character for character, and so does one with a byte for each character.
pub proof fn titles_read_back(s: Seq<char>, b: Seq<u8>)
    ensures
        pdf_text(seq![0xfeu8, 0xffu8] + bytes(encoded(s))) == s,
        b.len() < 2 || b[0] != 0xfe || b[1] != 0xff ==> pdf_text(b).len() == b.len() && forall|i:
            int| 0 <= i < b.len() ==> #[trigger] pdf_text(b)[i] as int == b[i],
{
    let all = seq![0xfeu8, 0xffu8] + bytes(encoded(s));
    assert(all.skip(2) =~= bytes(encoded(s)));
    lemma_bytes(encoded(s));
    lemma_decodes(s);
}

/// A page has the number of its last entry in the list; one that is not listed
/// has none.
pub proof fn last_entry_numbers_a_page(pages: Seq<(ObjectId, usize)>, id: ObjectId, i: int)
    ensures
        0 <= i < pages.len() && pages[i].0 == id && (forall|j: int|
            i < j < pages.len() ==> (#[trigger] pages[j]).0 != id) ==> page_number(pages, id)
            == Some(pages[i].1 as int),
        page_number(pages, id) is None <==> forall|j: int|
            0 <= j < pages.len() ==> (#[trigger] pages[j]).0 != id,
    decreases pages.len(),
{
    if pages.len() > 0 {
        let front = pages.drop_last();
        last_entry_numbers_a_page(front, id, i);
        assert(forall|j: int| 0 <= j < front.len() ==> #[trigger] front[j] == pages[j]);
        assert(pages.last() == pages[pages.len() - 1]);
        if pages.last().0 != id && page_number(front, id) is None {
            assert forall|j: int| 0 <= j < pages.len() implies (#[trigger] pages[j]).0 != id by {
                if j < front.len() {
                    assert(front[j] == pages[j]);
                }
            }
        }
    }
}

/// A bookmark is the first of its name in the table; a name that no bookmark has
/// leads nowhere.
pub proof fn first_bookmark_has_the_name(table: Seq<Bookmark>, id: ObjectId, i: int)
    ensures
        0 <= i < table.len() && table[i].id == id && (forall|j: int|
            0 <= j < i ==> (#[trigger] table[j]).id != id) ==> lookup(table, id) == Some(i),
        lookup(table, id) is None <==> forall|j: int|
            0 <= j < table.len() ==> (#[trigger] table[j]).id != id,
    decreases table.len(),
{
    if table.len() > 0 && table[0].id != id {
        let rest = table.skip(1);
        assert(forall|j: int| 0 <= j < rest.len() ==> #[trigger] rest[j] == table[j + 1]);
        first_bookmark_has_the_name(rest, id, i - 1);
        if lookup(rest, id) is None {
            assert forall|j: int| 0 <= j < table.len() implies (#[trigger] table[j]).id != id by {
                if j > 0 {
                    assert(rest[j - 1] == table[j]);
                }
            }
        } else {
            let j = choose|j: int| 0 <= j < rest.len() && (#[trigger] rest[j]).id == id;
            assert(table[j + 1].id == id);
        }
    }
}

/// A bookmark leads to the page that its destination refers to first, and without
/// a destination to that of its action.
pub proof fn destination_comes_before_action(b: Bookmark, pages: Seq<(ObjectId, usize)>)
    ensures
        (b.dest matches Some(Destination::Array(a)) && a@.len() > 0 && a@[0] is Reference)
            ==> dest_page(b, pages) == page_number(pages, b.dest->0->Array_0@[0]->Reference_0),
        b.dest is None && (b.action matches Some(Destination::Array(a)) && a@.len() > 0 && a@[0]
            is Reference) ==> dest_page(b, pages) == page_number(
            pages,
            b.action->0->Array_0@[0]->Reference_0,
        ),
        b.dest is None && b.action is None ==> dest_page(b, pages) is None,
        b.dest matches Some(Destination::Other) ==> dest_page(b, pages) is None,
{
}

/// A bookmark with a title has one entry, with its level, its title and its page,
/// or page zero where it leads to none; one without has no entry.
pub proof fn titled_bookmarks_are_listed(
    b: Bookmark,
    level: int,
    pages: Seq<(ObjectId, usize)>,
)
    ensures
        (b.title matches Some(t) && pdf_text(t@).len() > 0) ==> entry(b, level, pages).len() == 1
            && entry(b, level, pages)[0].title == pdf_text(b.title->0@) && entry(
            b,
            level,
            pages,
        )[0].level == level && (dest_page(b, pages) matches Some(n) ==> entry(
            b,
            level,
            pages,
        )[0].page == n) && (dest_page(b, pages) is None ==> entry(b, level, pages)[0].page == 0),
        b.title is None ==> entry(b, level, pages).len() == 0,
{
}

/// An outline goes from a bookmark to its children, one level down, and then to
/// the bookmarks that follow it, on its own level; all of each are there.
pub proof fn outline_goes_down_before_on(
    table: Seq<Bookmark>,
    pages: Seq<(ObjectId, usize)>,
    id: ObjectId,
    level: int,
    i: int,
)
    requires
        lookup(table, id) == Some(i),
        outline(table, pages, Some(id), level) is Some,
    ensures
        outline(table, pages, table[i].first, level + 1) is Some,
        outline(table, pages, table[i].next, level) is Some,
        outline(table, pages, Some(id), level)->0 == entry(table[i], level, pages) + outline(
            table,
            pages,
            table[i].first,
            level + 1,
        )->0 + outline(table, pages, table[i].next, level)->0,
{
    lemma_lookup(table, id);
    let d = (table.len() - 1) as nat;
    outline_is_complete(table, pages, table[i].first, level + 1, d);
    outline_is_complete(table, pages, table[i].next, level, d);
}

/// Where there is no bookmark the outline ends.
pub proof fn outline_ends(table: Seq<Bookmark>, pages: Seq<(ObjectId, usize)>, level: int)
    ensures
        outline(table, pages, None, level) == Some(Seq::<OutlineItemView>::empty()),
{
}

} // verus!
