//! The text map format: parsing a level description into a [`Level`].
//!
//! A map is ASCII text. Each line is one level row made of two-byte
//! cells: a tile glyph (`#` wall, `>` stairs, anything else floor)
//! followed by an object glyph (a digit places a character of that color
//! index, `X`/`Y`/`Z` place the three crates, anything else leaves the
//! cell empty). Leading whitespace and blank lines are ignored. The
//! characters get the first ids, in color order; the remaining objects
//! follow in reading order.

use vstd::prelude::*;

use crate::geom::Coords;
use crate::geom::Offset;
use crate::level::Level;
use crate::object::COLOR_COUNT;
use crate::object::Character;
use crate::object::CharacterColor;
use crate::object::Id;
use crate::object::LevelObject;
use crate::object::Object;
use crate::object::Tile;

verus! {

/// Whitespace the format strips from the head of a line.
pub open spec fn is_map_space(b: u8) -> bool {
    b == 32 || b == 9 || b == 13
}

/// The index of the first line feed of `s` at or after `i`, or the end
/// of `s` if the rest of the text is one line.
pub open spec fn line_end_from(s: Seq<u8>, i: int) -> int
    decreases s.len() - i when 0 <= i <= s.len()
{
    if i >= s.len() {
        i
    } else if s[i] == 10 {
        i
    } else {
        line_end_from(s, i + 1)
    }
}

/// `line_end_from` stays between its start and the end of the text, and
/// names the first line feed in that range.
pub proof fn lemma_line_end_from(s: Seq<u8>, i: int)
    requires
        0 <= i <= s.len(),
    ensures
        i <= line_end_from(s, i) <= s.len(),
        line_end_from(s, i) < s.len() ==> s[line_end_from(s, i)] == 10,
        forall|q: int| i <= q < line_end_from(s, i) ==> s[q] != 10,
    decreases s.len() - i,
{
    if i < s.len() && s[i] != 10 {
        lemma_line_end_from(s, i + 1);
    }
}

/// `line` without its leading whitespace.
pub open spec fn trim_lead(line: Seq<u8>) -> Seq<u8>
    decreases line.len(),
{
    if line.len() > 0 && is_map_space(line[0]) {
        trim_lead(line.subrange(1, line.len() as int))
    } else {
        line
    }
}

/// A scan that stops at the first non-space byte computes `trim_lead`.
pub proof fn lemma_trim_lead(line: Seq<u8>, d: int)
    requires
        0 <= d <= line.len(),
        forall|q: int| 0 <= q < d ==> is_map_space(line[q]),
        d < line.len() ==> !is_map_space(line[d]),
    ensures
        trim_lead(line) == line.subrange(d, line.len() as int),
    decreases d,
{
    if d == 0 {
        assert(line.subrange(0, line.len() as int) =~= line);
    } else {
        let tail = line.subrange(1, line.len() as int);
        lemma_trim_lead(tail, d - 1);
        assert(tail.subrange(d - 1, tail.len() as int) =~= line.subrange(d, line.len() as int));
    }
}

/// The kept rows of `s` from position `i` on: each line trimmed of its
/// leading whitespace, blank lines dropped.
pub open spec fn map_rows_from(s: Seq<u8>, i: int) -> Seq<Seq<u8>>
    decreases s.len() - i when 0 <= i <= s.len() via map_rows_from_dec
{
    if i >= s.len() {
        Seq::empty()
    } else {
        let e = line_end_from(s, i);
        let row = trim_lead(s.subrange(i, e));
        let rest = map_rows_from(
            s,
            if e < s.len() {
                e + 1
            } else {
                e
            },
        );
        if row.len() == 0 {
            rest
        } else {
            seq![row] + rest
        }
    }
}

#[via_fn]
proof fn map_rows_from_dec(s: Seq<u8>, i: int) {
    if 0 <= i < s.len() {
        lemma_line_end_from(s, i);
    }
}

/// The kept rows of the whole map text.
pub open spec fn map_rows(s: Seq<u8>) -> Seq<Seq<u8>> {
    map_rows_from(s, 0)
}

/// The views of a vector of row vectors.
pub open spec fn view_rows(rows: Seq<Vec<u8>>) -> Seq<Seq<u8>> {
    rows.map_values(|v: Vec<u8>| v@)
}

/// The tile a tile glyph stands for: `#` wall, `>` stairs, anything else
/// open floor.
pub open spec fn tile_of_glyph(b: u8) -> Tile {
    if b == 35 {
        Tile::Wall
    } else if b == 62 {
        Tile::Stairs
    } else {
        Tile::Floor { portal_color: None }
    }
}

/// The object an object glyph stands for: a digit places a character of
/// that color index, `X`/`Y`/`Z` place the three crates, anything else
/// leaves the cell empty.
pub open spec fn object_of_glyph(b: u8) -> Option<Object> {
    if 48 <= b < 48 + COLOR_COUNT {
        Some(
            Object::Character(
                Character {
                    color: CharacterColor::spec_from_idx(b - 48),
                    sliding: false,
                    portal_coords: None,
                },
            ),
        )
    } else if b == 88 {
        Some(Object::WoodenCrate)
    } else if b == 89 {
        Some(Object::SteelCrate)
    } else if b == 90 {
        Some(Object::StoneBlock)
    } else {
        None
    }
}

/// The kept rows form a rectangle of two-byte cells that fits the grid
/// dimensions a level accepts.
pub open spec fn rows_rect(rows: Seq<Seq<u8>>) -> bool {
    &&& rows.len() >= 1
    &&& rows[0].len() >= 2
    &&& rows[0].len() % 2 == 0
    &&& forall|r: int| 0 <= r < rows.len() ==> (#[trigger] rows[r]).len() == rows[0].len()
    &&& rows.len() <= 0x0FFF_FFFF
    &&& rows[0].len() / 2 <= 0x0FFF_FFFF
    &&& rows.len() * (rows[0].len() / 2) <= usize::MAX
}

/// The objects among the first `n` cells of row `r`, in cell order.
pub open spec fn row_objects(row: Seq<u8>, r: int, n: int) -> Seq<(Object, Coords)>
    decreases n,
{
    if n <= 0 {
        Seq::empty()
    } else {
        let prev = row_objects(row, r, n - 1);
        match object_of_glyph(row[2 * (n - 1) + 1]) {
            Some(o) => prev.push((o, Coords { row: r as i32, col: (n - 1) as i32 })),
            None => prev,
        }
    }
}

/// The objects in the first `k` rows, in reading order.
pub open spec fn rows_objects(rows: Seq<Seq<u8>>, k: int) -> Seq<(Object, Coords)>
    decreases k,
{
    if k <= 0 {
        Seq::empty()
    } else {
        rows_objects(rows, k - 1) + row_objects(rows[k - 1], k - 1, rows[k - 1].len() as int / 2)
    }
}

/// All objects the map describes, in reading order.
pub open spec fn map_objects(rows: Seq<Seq<u8>>) -> Seq<(Object, Coords)> {
    rows_objects(rows, rows.len() as int)
}

/// Whether a scanned entry places a character.
pub open spec fn is_char_entry(e: (Object, Coords)) -> bool {
    e.0 is Character
}

/// The color index of a scanned character entry.
pub open spec fn entry_color(e: (Object, Coords)) -> int {
    e.0->Character_0.color.spec_idx()
}

/// Whether some scanned entry is a character of color index `k`.
pub open spec fn has_color(objs: Seq<(Object, Coords)>, k: int) -> bool {
    exists|i: int|
        0 <= i < objs.len() && is_char_entry(#[trigger] objs[i]) && entry_color(objs[i]) == k
}

/// The scanned entry of the character with color index `k`.
pub open spec fn entry_of_color(objs: Seq<(Object, Coords)>, k: int) -> (Object, Coords) {
    objs[choose|i: int|
        0 <= i < objs.len() && is_char_entry(#[trigger] objs[i]) && entry_color(objs[i]) == k]
}

/// No two scanned characters share a color.
pub open spec fn colors_distinct(objs: Seq<(Object, Coords)>) -> bool {
    forall|i: int, j: int|
        0 <= i < objs.len() && 0 <= j < objs.len() && i != j && is_char_entry(#[trigger] objs[i])
            && is_char_entry(#[trigger] objs[j]) ==> entry_color(objs[i]) != entry_color(objs[j])
}

/// The scanned characters with color index at least `k`, in color order.
pub open spec fn chars_by_color(objs: Seq<(Object, Coords)>, k: int) -> Seq<(Object, Coords)>
    decreases COLOR_COUNT - k when k >= 0
{
    if k >= COLOR_COUNT {
        Seq::empty()
    } else if has_color(objs, k) {
        seq![entry_of_color(objs, k)] + chars_by_color(objs, k + 1)
    } else {
        chars_by_color(objs, k + 1)
    }
}

/// The non-character entries among the first `n` of `objs`, in order.
pub open spec fn crates_upto(objs: Seq<(Object, Coords)>, n: int) -> Seq<(Object, Coords)>
    decreases n,
{
    if n <= 0 {
        Seq::empty()
    } else if is_char_entry(objs[n - 1]) {
        crates_upto(objs, n - 1)
    } else {
        crates_upto(objs, n - 1).push(objs[n - 1])
    }
}

/// The scanned objects in placement (id) order: the characters by color
/// first, then the rest in reading order.
pub open spec fn placement_order(objs: Seq<(Object, Coords)>) -> Seq<(Object, Coords)> {
    chars_by_color(objs, 0) + crates_upto(objs, objs.len() as int)
}

/// A well-formed level description: at least one kept row, all rows of
/// one even positive cell width, dimensions within the level's bounds,
/// no two characters of one color, and few enough objects that every id
/// (and a turn's worth of summoned colors) fits the id type.
pub open spec fn map_wf(map: Seq<u8>) -> bool {
    let rows = map_rows(map);
    &&& rows_rect(rows)
    &&& colors_distinct(map_objects(rows))
    &&& map_objects(rows).len() + COLOR_COUNT <= u32::MAX + 1
}

/// Whether level `l` is the level the map text describes: the glyph
/// grid's dimensions and tiles, the scanned objects in placement order
/// under ids 0, 1, ..., all facing right, and no recorded history.
pub open spec fn level_matches_map(l: Level, map: Seq<u8>) -> bool {
    let rows = map_rows(map);
    let placed = placement_order(map_objects(rows));
    &&& l.wf()
    &&& l.turn() == 0
    &&& l.history_len() == 0
    &&& l.game().width == rows[0].len() / 2
    &&& l.game().height == rows.len()
    &&& forall|c: Coords|
        l.game().in_bounds(c) ==> l.game().tiles[#[trigger] l.game().tile_index(c)]
            == tile_of_glyph(rows[c.row as int][2 * c.col])
    &&& l.allocated() == placed.len()
    &&& forall|k: int| #[trigger] l.game().objects.dom().contains(k) <==> 0 <= k < placed.len()
    &&& forall|k: int|
        0 <= k < placed.len() ==> l.game().objects[k] == (LevelObject {
            id: Id(k as u32),
            object: (#[trigger] placed[k]).0,
            coords: placed[k].1,
            facing: Offset::spec_right(),
        })
}

/// Splits `map` into its kept rows.
fn split_rows(map: &[u8]) -> (rows: Vec<Vec<u8>>)
    ensures
        view_rows(rows@) == map_rows(map@),
{
        let mut rows: Vec<Vec<u8>> = Vec::new();
        let n = map.len();
        let mut i: usize = 0;
        while i < n
            invariant
                n == map@.len(),
                i <= n,
                map_rows(map@) == view_rows(rows@) + map_rows_from(map@, i as int),
            decreases n - i,
        {
            let ghost i0 = i as int;
            let ghost before = rows@;
            let mut j: usize = i;
            while j < n && map[j] != 10u8
                invariant
                    i <= j <= n,
                    n == map@.len(),
                    forall|q: int| i0 <= q < j ==> map@[q] != 10,
                decreases n - j,
            {
                j += 1;
            }
            proof {
                lemma_line_end_from(map@, i0);
                let e = line_end_from(map@, i0);
                if e < j {
                    assert(map@[e] != 10);
                    assert(false);
                }
                if j < e {
                    assert(map@[j as int] != 10);
                    assert(false);
                }
            }
            let mut k: usize = i;
            while k < j && (map[k] == 32u8 || map[k] == 9u8 || map[k] == 13u8)
                invariant
                    i <= k <= j,
                    j <= n,
                    n == map@.len(),
                    forall|q: int| i0 <= q < k ==> is_map_space(map@[q]),
                decreases j - k,
            {
                k += 1;
            }
            let mut row: Vec<u8> = Vec::new();
            let mut q: usize = k;
            while q < j
                invariant
                    k <= q <= j,
                    j <= n,
                    n == map@.len(),
                    row@ == map@.subrange(k as int, q as int),
                decreases j - q,
            {
                row.push(map[q]);
                proof {
                    assert(row@ =~= map@.subrange(k as int, q as int + 1));
                }
                q += 1;
            }
            proof {
                let line = map@.subrange(i0, j as int);
                lemma_trim_lead(line, k - i0);
                assert(line.subrange(k - i0, line.len() as int) =~= map@.subrange(
                    k as int,
                    j as int,
                ));
                assert(trim_lead(line) == row@);
            }
            if row.len() > 0 {
                rows.push(row);
                proof {
                    assert(view_rows(rows@) =~= view_rows(before).push(row@));
                }
            }
            proof {
                let next = if j < n {
                    j + 1
                } else {
                    j as int
                };
                assert(map_rows_from(map@, i0) == (if trim_lead(
                    map@.subrange(i0, j as int),
                ).len() == 0 {
                    map_rows_from(map@, next)
                } else {
                    seq![trim_lead(map@.subrange(i0, j as int))] + map_rows_from(map@, next)
                }));
                assert(map_rows(map@) =~= view_rows(rows@) + map_rows_from(map@, next));
            }
            i = if j < n {
                j + 1
            } else {
                j
            };
        }
        proof {
            assert(map_rows_from(map@, n as int) =~= Seq::<Seq<u8>>::empty());
            assert(view_rows(rows@) =~= map_rows(map@));
        }
        rows
}

/// Every object of a row scan stands in that row, in a scanned cell,
/// and no two scanned objects of the row share a cell.
proof fn lemma_row_objects(row: Seq<u8>, r: int, n: int)
    requires
        0 <= r <= 0x0FFF_FFFF,
        0 <= n <= 0x0FFF_FFFF,
    ensures
        row_objects(row, r, n).len() <= n,
        forall|p: int|
            0 <= p < row_objects(row, r, n).len() ==> {
                let e = #[trigger] row_objects(row, r, n)[p];
                e.1.row == r && 0 <= e.1.col < n
            },
        forall|p: int, q: int|
            0 <= p < q < row_objects(row, r, n).len() ==> (#[trigger] row_objects(row, r, n)[p]).1.col
                < (#[trigger] row_objects(row, r, n)[q]).1.col,
    decreases n,
{
    if n > 0 {
        lemma_row_objects(row, r, n - 1);
    }
}

/// Every scanned object stands in a scanned row and column, and no two
/// scanned objects share a cell.
proof fn lemma_rows_objects(rows: Seq<Seq<u8>>, k: int)
    requires
        rows_rect(rows),
        0 <= k <= rows.len(),
    ensures
        forall|p: int|
            0 <= p < rows_objects(rows, k).len() ==> {
                let e = #[trigger] rows_objects(rows, k)[p];
                0 <= e.1.row < k && 0 <= e.1.col < rows[0].len() / 2
            },
        forall|p: int, q: int|
            0 <= p < rows_objects(rows, k).len() && 0 <= q < rows_objects(rows, k).len() && p != q
                ==> (#[trigger] rows_objects(rows, k)[p]).1 != (
            #[trigger] rows_objects(rows, k)[q]).1,
    decreases k,
{
    if k > 0 {
        lemma_rows_objects(rows, k - 1);
        lemma_row_objects(rows[k - 1], k - 1, rows[k - 1].len() as int / 2);
        let prev = rows_objects(rows, k - 1);
        let cur = row_objects(rows[k - 1], k - 1, rows[k - 1].len() as int / 2);
        assert forall|p: int, q: int|
            0 <= p < (prev + cur).len() && 0 <= q < (prev + cur).len() && p
                != q implies (#[trigger] (prev + cur)[p]).1 != (#[trigger] (prev + cur)[q]).1 by {
            if p < prev.len() && q < prev.len() {
            } else if p >= prev.len() && q >= prev.len() {
                if p < q {
                    assert(cur[p - prev.len()].1.col < cur[q - prev.len()].1.col);
                } else {
                    assert(cur[q - prev.len()].1.col < cur[p - prev.len()].1.col);
                }
            } else if p < prev.len() {
                assert(prev[p].1.row < k - 1 && cur[q - prev.len()].1.row == k - 1);
            } else {
                assert(prev[q].1.row < k - 1 && cur[p - prev.len()].1.row == k - 1);
            }
        }
    }
}

/// Every placed character is a scanned entry, their colors rise
/// strictly, and there are at most as many as there are colors.
proof fn lemma_chars_entries(objs: Seq<(Object, Coords)>, k: int)
    requires
        0 <= k <= COLOR_COUNT,
    ensures
        chars_by_color(objs, k).len() <= COLOR_COUNT - k,
        forall|p: int|
            0 <= p < chars_by_color(objs, k).len() ==> {
                let e = #[trigger] chars_by_color(objs, k)[p];
                &&& exists|j: int| 0 <= j < objs.len() && objs[j] == e
                &&& is_char_entry(e)
                &&& k <= entry_color(e) < COLOR_COUNT
            },
        forall|p: int, q: int|
            0 <= p < q < chars_by_color(objs, k).len() ==> entry_color(
                #[trigger] chars_by_color(objs, k)[p],
            ) < entry_color(#[trigger] chars_by_color(objs, k)[q]),
    decreases COLOR_COUNT - k,
{
    if k < COLOR_COUNT {
        lemma_chars_entries(objs, k + 1);
        if has_color(objs, k) {
            let w = choose|i: int|
                0 <= i < objs.len() && is_char_entry(#[trigger] objs[i]) && entry_color(objs[i])
                    == k;
            assert(objs[w] == entry_of_color(objs, k));
        }
    }
}

/// Every placed crate is a scanned entry, and with all scanned cells
/// distinct no two placed crates share a cell.
proof fn lemma_crates_entries(objs: Seq<(Object, Coords)>, n: int)
    requires
        0 <= n <= objs.len(),
        forall|i: int, j: int|
            0 <= i < objs.len() && 0 <= j < objs.len() && i != j ==> (#[trigger] objs[i]).1 != (
            #[trigger] objs[j]).1,
    ensures
        crates_upto(objs, n).len() <= n,
        forall|p: int|
            0 <= p < crates_upto(objs, n).len() ==> {
                let e = #[trigger] crates_upto(objs, n)[p];
                &&& exists|j: int| 0 <= j < n && objs[j] == e
                &&& !is_char_entry(e)
            },
        forall|p: int, q: int|
            0 <= p < crates_upto(objs, n).len() && 0 <= q < crates_upto(objs, n).len() && p != q
                ==> (#[trigger] crates_upto(objs, n)[p]).1 != (#[trigger] crates_upto(objs, n)[q]).1,
    decreases n,
{
    if n > 0 {
        lemma_crates_entries(objs, n - 1);
        if !is_char_entry(objs[n - 1]) {
            let prev = crates_upto(objs, n - 1);
            assert forall|p: int, q: int|
                0 <= p < prev.push(objs[n - 1]).len() && 0 <= q < prev.push(objs[n - 1]).len() && p
                    != q implies (#[trigger] prev.push(objs[n - 1])[p]).1 != (#[trigger] prev.push(
                objs[n - 1],
            )[q]).1 by {
                if p < prev.len() && q < prev.len() {
                } else if p < prev.len() {
                    let j = choose|j: int| 0 <= j < n - 1 && objs[j] == prev[p];
                    assert(objs[j].1 != objs[n - 1].1);
                } else if q < prev.len() {
                    let j = choose|j: int| 0 <= j < n - 1 && objs[j] == prev[q];
                    assert(objs[j].1 != objs[n - 1].1);
                }
            }
        }
    }
}

/// Every entry of the placement order is a scanned entry, no two placed
/// entries share a cell, and the order is not much longer than the scan.
proof fn lemma_placement_order(objs: Seq<(Object, Coords)>)
    requires
        forall|i: int, j: int|
            0 <= i < objs.len() && 0 <= j < objs.len() && i != j ==> (#[trigger] objs[i]).1 != (
            #[trigger] objs[j]).1,
    ensures
        placement_order(objs).len() <= objs.len() + COLOR_COUNT,
        forall|p: int|
            0 <= p < placement_order(objs).len() ==> exists|j: int|
                0 <= j < objs.len() && objs[j] == #[trigger] placement_order(objs)[p],
        forall|p: int, q: int|
            0 <= p < placement_order(objs).len() && 0 <= q < placement_order(objs).len() && p != q
                ==> (#[trigger] placement_order(objs)[p]).1 != (
            #[trigger] placement_order(objs)[q]).1,
    decreases 0int,
{
    lemma_chars_entries(objs, 0);
    lemma_crates_entries(objs, objs.len() as int);
    let cs = chars_by_color(objs, 0);
    let rest = crates_upto(objs, objs.len() as int);
    assert forall|p: int, q: int|
        0 <= p < (cs + rest).len() && 0 <= q < (cs + rest).len() && p != q implies (#[trigger] (cs
        + rest)[p]).1 != (#[trigger] (cs + rest)[q]).1 by {
        let a = (cs + rest)[p];
        let b = (cs + rest)[q];
        let ja = if p < cs.len() {
            choose|j: int| 0 <= j < objs.len() && objs[j] == cs[p]
        } else {
            choose|j: int| 0 <= j < objs.len() && objs[j] == rest[p - cs.len()]
        };
        let jb = if q < cs.len() {
            choose|j: int| 0 <= j < objs.len() && objs[j] == cs[q]
        } else {
            choose|j: int| 0 <= j < objs.len() && objs[j] == rest[q - cs.len()]
        };
        assert(objs[ja] == a);
        assert(objs[jb] == b);
        if a.1 == b.1 {
            assert(ja == jb);
            assert(a == b);
            if p < cs.len() && q < cs.len() {
                if p < q {
                    assert(entry_color(cs[p]) < entry_color(cs[q]));
                } else {
                    assert(entry_color(cs[q]) < entry_color(cs[p]));
                }
            } else if p >= cs.len() && q >= cs.len() {
                if p < q {
                    assert(rest[p - cs.len()].1 != rest[q - cs.len()].1);
                } else {
                    assert(rest[q - cs.len()].1 != rest[p - cs.len()].1);
                }
            } else if p < cs.len() {
                assert(is_char_entry(a) && !is_char_entry(b));
            } else {
                assert(is_char_entry(b) && !is_char_entry(a));
            }
        }
    }
}

/// Scans the rectangular rows for their object glyphs, in reading order.
fn scan_objects(rows: &Vec<Vec<u8>>) -> (objs: Vec<(Object, Coords)>)
    requires
        rows_rect(view_rows(rows@)),
    ensures
        objs@ == map_objects(view_rows(rows@)),
{
    let ghost grid = view_rows(rows@);
    let width = rows[0].len() / 2;
    let mut objs: Vec<(Object, Coords)> = Vec::new();
    let mut r: usize = 0;
    while r < rows.len()
        invariant
            r <= rows@.len(),
            objs@ == rows_objects(grid, r as int),
        decreases rows@.len() - r,
    {
        proof {
            assert(grid[r as int] == rows@[r as int]@);
            assert(grid[r as int].len() == grid[0].len());
        }
        let mut c: usize = 0;
        while c < width
            invariant
                r < rows@.len(),
                c <= width,
                objs@ == rows_objects(grid, r as int) + row_objects(
                    grid[r as int],
                    r as int,
                    c as int,
                ),
            decreases width - c,
        {
            let g = rows[r][2 * c + 1];
            let o: Option<Object> = if 48u8 <= g && g < 56u8 {
                Some(
                    Object::Character(
                        Character {
                            color: CharacterColor::from_idx((g - 48) as usize),
                            sliding: false,
                            portal_coords: None,
                        },
                    ),
                )
            } else if g == 88u8 {
                Some(Object::WoodenCrate)
            } else if g == 89u8 {
                Some(Object::SteelCrate)
            } else if g == 90u8 {
                Some(Object::StoneBlock)
            } else {
                None
            };
            proof {
                assert(o == object_of_glyph(grid[r as int][2 * (c as int) + 1]));
            }
            match o {
                Some(ob) => {
                    objs.push((ob, Coords { row: r as i32, col: c as i32 }));
                },
                None => {},
            }
            c += 1;
            proof {
                assert(objs@ =~= rows_objects(grid, r as int) + row_objects(
                    grid[r as int],
                    r as int,
                    c as int,
                ));
            }
        }
        r += 1;
        proof {
            assert(objs@ =~= rows_objects(grid, r as int));
        }
    }
    objs
}

/// Whether no two scanned characters share a color.
fn colors_ok(objs: &Vec<(Object, Coords)>) -> (ok: bool)
    ensures
        ok == colors_distinct(objs@),
{
    let mut seen: Vec<bool> = Vec::new();
    let mut z: usize = 0;
    while z < COLOR_COUNT
        invariant
            z <= COLOR_COUNT,
            seen@.len() == z,
            forall|q: int| 0 <= q < z ==> !seen@[q],
        decreases COLOR_COUNT - z,
    {
        seen.push(false);
        z += 1;
    }
    let mut i: usize = 0;
    while i < objs.len()
        invariant
            seen@.len() == COLOR_COUNT,
            i <= objs@.len(),
            forall|k: int|
                0 <= k < COLOR_COUNT ==> #[trigger] seen@[k] == has_color(
                    objs@.take(i as int),
                    k,
                ),
            colors_distinct(objs@.take(i as int)),
        decreases objs@.len() - i,
    {
        let e = objs[i];
        let ghost t = objs@.take(i as int);
        let ghost t1 = objs@.take(i as int + 1);
        proof {
            assert(t1 =~= t.push(objs@[i as int]));
        }
        let is_char = match e.0 {
            Object::Character(..) => true,
            _ => false,
        };
        if is_char {
            let idx = match e.0 {
                Object::Character(ch) => ch.color.idx(),
                _ => 0,
            };
            proof {
                assert(is_char_entry(objs@[i as int]));
                assert(entry_color(objs@[i as int]) == idx);
            }
            if seen[idx] {
                proof {
                    let j = choose|jj: int|
                        0 <= jj < t.len() && is_char_entry(#[trigger] t[jj]) && entry_color(t[jj])
                            == idx;
                    assert(t[j] == objs@[j]);
                    assert(is_char_entry(objs@[j]) && entry_color(objs@[j]) == idx);
                    assert(!colors_distinct(objs@));
                }
                return false;
            }
            seen.set(idx, true);
            proof {
                assert forall|k: int| 0 <= k < COLOR_COUNT implies #[trigger] seen@[k]
                    == has_color(t1, k) by {
                    if k == idx {
                        assert(is_char_entry(t1[i as int]) && entry_color(t1[i as int]) == k);
                        assert(has_color(t1, k));
                    } else {
                        if has_color(t1, k) {
                            let w = choose|w: int|
                                0 <= w < t1.len() && is_char_entry(#[trigger] t1[w]) && entry_color(
                                    t1[w],
                                ) == k;
                            assert(w != i);
                            assert(t[w] == t1[w]);
                            assert(has_color(t, k));
                        }
                        if has_color(t, k) {
                            let w = choose|w: int|
                                0 <= w < t.len() && is_char_entry(#[trigger] t[w]) && entry_color(
                                    t[w],
                                ) == k;
                            assert(t1[w] == t[w]);
                            assert(has_color(t1, k));
                        }
                    }
                }
                assert forall|a: int, b: int|
                    0 <= a < t1.len() && 0 <= b < t1.len() && a != b && is_char_entry(
                        #[trigger] t1[a],
                    ) && is_char_entry(#[trigger] t1[b]) implies entry_color(t1[a]) != entry_color(
                    t1[b],
                ) by {
                    if a == i {
                        if entry_color(t1[b]) == idx {
                            assert(t[b] == t1[b]);
                            assert(has_color(t, idx as int));
                        }
                    } else if b == i {
                        if entry_color(t1[a]) == idx {
                            assert(t[a] == t1[a]);
                            assert(has_color(t, idx as int));
                        }
                    } else {
                        assert(t[a] == t1[a] && t[b] == t1[b]);
                    }
                }
            }
        } else {
            proof {
                assert(!is_char_entry(objs@[i as int]));
                assert forall|k: int| 0 <= k < COLOR_COUNT implies #[trigger] seen@[k]
                    == has_color(t1, k) by {
                    if has_color(t1, k) {
                        let w = choose|w: int|
                            0 <= w < t1.len() && is_char_entry(#[trigger] t1[w]) && entry_color(
                                t1[w],
                            ) == k;
                        assert(w != i);
                        assert(t[w] == t1[w]);
                        assert(has_color(t, k));
                    }
                    if has_color(t, k) {
                        let w = choose|w: int|
                            0 <= w < t.len() && is_char_entry(#[trigger] t[w]) && entry_color(
                                t[w],
                            ) == k;
                        assert(t1[w] == t[w]);
                        assert(has_color(t1, k));
                    }
                }
                assert forall|a: int, b: int|
                    0 <= a < t1.len() && 0 <= b < t1.len() && a != b && is_char_entry(
                        #[trigger] t1[a],
                    ) && is_char_entry(#[trigger] t1[b]) implies entry_color(t1[a]) != entry_color(
                    t1[b],
                ) by {
                    assert(a != i && b != i);
                    assert(t[a] == t1[a] && t[b] == t1[b]);
                }
            }
        }
        i += 1;
    }
    proof {
        assert(objs@.take(objs@.len() as int) =~= objs@);
    }
    true
}

/// Orders the scanned objects for placement: the characters by color,
/// then the rest in reading order.
fn order_objects(objs: &Vec<(Object, Coords)>) -> (placed: Vec<(Object, Coords)>)
    requires
        colors_distinct(objs@),
    ensures
        placed@ == placement_order(objs@),
{
    let mut placed: Vec<(Object, Coords)> = Vec::new();
    let mut k: usize = 0;
    while k < COLOR_COUNT
        invariant
            k <= COLOR_COUNT,
            chars_by_color(objs@, 0) == placed@ + chars_by_color(objs@, k as int),
        decreases COLOR_COUNT - k,
    {
        let mut found: Option<(Object, Coords)> = None;
        let mut i: usize = 0;
        while i < objs.len()
            invariant
                i <= objs@.len(),
                k < COLOR_COUNT,
                found is None ==> !has_color(objs@.take(i as int), k as int),
                found is Some ==> is_char_entry(found->0) && entry_color(found->0) == k && (
                exists|j: int| 0 <= j < objs@.len() && objs@[j] == found->0),
            decreases objs@.len() - i,
        {
            let e = objs[i];
            let ghost found0 = found;
            let is_match = match e.0 {
                Object::Character(ch) => ch.color.idx() == k,
                _ => false,
            };
            if is_match && found.is_none() {
                found = Some(e);
                proof {
                    assert(objs@[i as int] == e);
                    assert(is_char_entry(e) && entry_color(e) == k);
                }
            }
            proof {
                if found is None {
                    assert(objs@.take(i as int + 1) =~= objs@.take(i as int).push(
                        objs@[i as int],
                    ));
                    if has_color(objs@.take(i as int + 1), k as int) {
                        let w = choose|w: int|
                            0 <= w < objs@.take(i as int + 1).len() && is_char_entry(
                                #[trigger] objs@.take(i as int + 1)[w],
                            ) && entry_color(objs@.take(i as int + 1)[w]) == k;
                        if w == i {
                            assert(is_char_entry(e) && entry_color(e) == k);
                            assert(is_match);
                            assert(false);
                        } else {
                            assert(objs@.take(i as int)[w] == objs@.take(i as int + 1)[w]);
                            assert(has_color(objs@.take(i as int), k as int));
                            assert(false);
                        }
                    }
                }
            }
            i += 1;
        }
        let ghost before = placed@;
        match found {
            Some(e) => {
                placed.push(e);
                proof {
                    let j = choose|j: int| 0 <= j < objs@.len() && objs@[j] == e;
                    assert(is_char_entry(objs@[j]) && entry_color(objs@[j]) == k);
                    assert(has_color(objs@, k as int));
                    let j0 = choose|i2: int|
                        0 <= i2 < objs@.len() && is_char_entry(#[trigger] objs@[i2])
                            && entry_color(objs@[i2]) == k;
                    assert(j0 == j);
                    assert(entry_of_color(objs@, k as int) == e);
                    assert(chars_by_color(objs@, k as int) == seq![e] + chars_by_color(
                        objs@,
                        k as int + 1,
                    ));
                    assert(before + chars_by_color(objs@, k as int) =~= placed@
                        + chars_by_color(objs@, k as int + 1));
                }
            },
            None => {
                proof {
                    assert(objs@.take(objs@.len() as int) =~= objs@);
                    assert(!has_color(objs@, k as int));
                    assert(chars_by_color(objs@, k as int) == chars_by_color(
                        objs@,
                        k as int + 1,
                    ));
                }
            },
        }
        k += 1;
    }
    let mut i: usize = 0;
    while i < objs.len()
        invariant
            i <= objs@.len(),
            placed@ == chars_by_color(objs@, 0) + crates_upto(objs@, i as int),
        decreases objs@.len() - i,
    {
        let e = objs[i];
        let is_crate = match e.0 {
            Object::Character(..) => false,
            _ => true,
        };
        if is_crate {
            placed.push(e);
        }
        proof {
            assert(objs@[i as int] == e);
            assert(placed@ =~= chars_by_color(objs@, 0) + crates_upto(objs@, i as int + 1));
        }
        i += 1;
    }
    placed
}

/// Parses a level description. `None` exactly when the text is not a
/// well-formed map; otherwise the level the text describes, with no
/// recorded history.
pub fn parse_level(map: &[u8]) -> (r: Option<Level>)
    ensures
        r is Some <==> map_wf(map@),
        r is Some ==> level_matches_map(r->0, map@),
{
    let ghost grid = map_rows(map@);
    let rows = split_rows(map);
    proof {
        assert(grid == view_rows(rows@));
        assert(grid.len() == rows@.len());
    }
    if rows.len() == 0 {
        return None;
    }
    let w2 = rows[0].len();
    proof {
        assert(grid[0] == rows@[0]@);
    }
    if w2 < 2 || w2 % 2 != 0 {
        return None;
    }
    let mut rr: usize = 1;
    while rr < rows.len()
        invariant
            1 <= rr <= rows@.len(),
            forall|q: int| 0 <= q < rr ==> (#[trigger] grid[q]).len() == w2,
        decreases rows@.len() - rr,
    {
        proof {
            assert(grid[rr as int] == rows@[rr as int]@);
        }
        if rows[rr].len() != w2 {
            proof {
                assert(grid[rr as int].len() != grid[0].len());
            }
            return None;
        }
        rr += 1;
    }
    let width = w2 / 2;
    let height = rows.len();
    if width > 0x0FFF_FFFF || height > 0x0FFF_FFFF {
        return None;
    }
    proof {
        assert((width as int) * (height as int) <= 0x0FFF_FFFF * 0x0FFF_FFFF)
            by (nonlinear_arith)
            requires
                0 <= width <= 0x0FFF_FFFF,
                0 <= height <= 0x0FFF_FFFF,
        ;
    }
    let prod: u64 = (width as u64) * (height as u64);
    proof {
        assert(grid[0].len() == w2);
        assert(grid.len() == height);
        assert(grid[0].len() / 2 == width);
        assert(prod == (width as int) * (height as int));
        assert((height as int) * (width as int) == (width as int) * (height as int))
            by (nonlinear_arith);
    }
    if prod > usize::MAX as u64 {
        proof {
            assert(grid.len() * (grid[0].len() / 2) > usize::MAX);
        }
        return None;
    }
    proof {
        assert(rows_rect(grid));
    }
    let objs = scan_objects(&rows);
    if objs.len() > u32::MAX as usize - (COLOR_COUNT - 1) {
        return None;
    }
    if !colors_ok(&objs) {
        return None;
    }
    proof {
        assert(map_wf(map@));
        assert((width as int) * (height as int) <= usize::MAX);
    }
    let mut level = Level::empty(width, height);
    let ghost s0 = level.game();
    proof {
        level.lemma_current_snapshot();
    }
    let mut r: usize = 0;
    while r < height
        invariant
            level.wf(),
            level.game().wf(),
            level.turn() == 0,
            level.history_len() == 0,
            level.allocated() == 0,
            level.game().objects == s0.objects,
            level.game().width == width as int,
            level.game().height == height as int,
            r <= height,
            forall|cc: Coords|
                level.game().in_bounds(cc) && cc.row < r ==> level.game().tiles[
                    #[trigger] level.game().tile_index(cc)
                ] == tile_of_glyph(grid[cc.row as int][2 * cc.col]),
        decreases height - r,
    {
        proof {
            assert(grid[r as int] == rows@[r as int]@);
            assert(grid[r as int].len() == w2);
        }
        let mut c: usize = 0;
        while c < width
            invariant
                level.wf(),
                level.game().wf(),
                level.turn() == 0,
                level.history_len() == 0,
                level.allocated() == 0,
                level.game().objects == s0.objects,
                level.game().width == width as int,
                level.game().height == height as int,
                r < height,
                c <= width,
                forall|cc: Coords|
                    level.game().in_bounds(cc) && cc.row < r ==> level.game().tiles[
                        #[trigger] level.game().tile_index(cc)
                    ] == tile_of_glyph(grid[cc.row as int][2 * cc.col]),
                forall|cc: Coords|
                    level.game().in_bounds(cc) && cc.row == r && cc.col < c
                        ==> level.game().tiles[#[trigger] level.game().tile_index(cc)]
                        == tile_of_glyph(grid[cc.row as int][2 * cc.col]),
            decreases width - c,
        {
            let gbyte = rows[r][2 * c];
            let t = if gbyte == 35u8 {
                Tile::Wall
            } else if gbyte == 62u8 {
                Tile::Stairs
            } else {
                Tile::Floor { portal_color: None }
            };
            proof {
                assert(t == tile_of_glyph(grid[r as int][2 * (c as int)]));
            }
            let co = Coords { row: r as i32, col: c as i32 };
            let ghost before = level.game();
            proof {
                assert(level.game().in_bounds(co));
            }
            level.set_tile_at(co, t);
            c += 1;
            proof {
                level.lemma_current_snapshot();
                crate::state::lemma_tile_index_bounds(before, co);
                assert forall|cc: Coords|
                    level.game().in_bounds(cc) && (cc.row < r || (cc.row == r && cc.col
                        < c)) implies level.game().tiles[#[trigger] level.game().tile_index(cc)]
                    == tile_of_glyph(grid[cc.row as int][2 * cc.col]) by {
                    crate::state::lemma_tile_index_bounds(before, cc);
                    if level.game().tile_index(cc) == level.game().tile_index(co) {
                        crate::state::lemma_tile_index_injective(before, cc, co);
                        assert(cc == co);
                    } else {
                        assert(level.game().tiles[level.game().tile_index(cc)]
                            == before.tiles[before.tile_index(cc)]);
                    }
                }
            }
        }
        r += 1;
    }
    let placed = order_objects(&objs);
    proof {
        lemma_rows_objects(grid, grid.len() as int);
        lemma_placement_order(objs@);
    }
    let ghost g1 = level.game();
    let mut p: usize = 0;
    while p < placed.len()
        invariant
            level.wf(),
            level.turn() == 0,
            level.history_len() == 0,
            level.game().width == width as int,
            level.game().height == height as int,
            level.game().tiles == g1.tiles,
            level.allocated() == p,
            p <= placed@.len(),
            forall|kk: int| #[trigger] level.game().objects.dom().contains(kk) <==> 0 <= kk < p,
            forall|kk: int|
                0 <= kk < p ==> level.game().objects[kk] == (LevelObject {
                    id: Id(kk as u32),
                    object: (#[trigger] placed@[kk]).0,
                    coords: placed@[kk].1,
                    facing: Offset::spec_right(),
                }),
        decreases placed@.len() - p,
    {
        let e = placed[p];
        proof {
            let j = choose|j: int| 0 <= j < objs@.len() && objs@[j] == placed@[p as int];
            assert(0 <= objs@[j].1.row < height && 0 <= objs@[j].1.col < width);
            assert(level.game().in_bounds(e.1));
            if level.game().occupied(e.1) {
                let w = choose|w: int| #[trigger]
                    level.game().objects.dom().contains(w) && level.game().objects[w].coords
                        == e.1;
                assert(placed@[w].1 == placed@[p as int].1);
                assert(false);
            }
            assert(placed@.len() <= objs@.len() + COLOR_COUNT);
            assert(level.allocated() <= u32::MAX);
        }
        let ok = level.place_object(e.0, e.1);
        proof {
            assert(ok);
            assert forall|kk: int| #[trigger]
                level.game().objects.dom().contains(kk) <==> 0 <= kk < p + 1 by {
                if 0 <= kk < p + 1 {
                    if kk < p {
                        assert(level.game().objects.dom().contains(kk));
                    } else {
                        assert(level.game().objects.dom().contains(p as int));
                    }
                }
            }
        }
        p += 1;
    }
    proof {
        assert forall|cc: Coords| level.game().in_bounds(cc) implies level.game().tiles[
            #[trigger] level.game().tile_index(cc)
        ] == tile_of_glyph(grid[cc.row as int][2 * cc.col]) by {
            assert(g1.in_bounds(cc));
            assert(g1.tiles[g1.tile_index(cc)] == tile_of_glyph(grid[cc.row as int][2 * cc.col]));
            assert(level.game().tile_index(cc) == g1.tile_index(cc));
        }
        assert(level_matches_map(level, map@));
    }
    Some(level)
}

} // verus!
