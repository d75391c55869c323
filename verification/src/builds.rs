//! The build layout grammar: a text grid describing a prefab stack of items.
//!
//! Each line of the input is one horizontal layer; the last line is the
//! bottom layer. Within a line, every character that names an item kind
//! places that item, with its column as the x coordinate and its layer
//! number counted from the bottom as the y coordinate. Other characters are
//! blank space. Lines end at a line feed, an immediately preceding carriage
//! return belongs to the line break, and columns count characters: a byte
//! that does not begin a character never places an item and never advances
//! the column.

use vstd::prelude::*;
use crate::items::{GarbageItem, item_of_char};

verus! {

/// Whether a byte begins a character in a stream of encoded text: every
/// byte except a continuation byte.
pub open spec fn starts_char(b: u8) -> bool {
    b & 0xC0 != 0x80
}

/// The item kind a layout byte stands for, if any. Item codes are the
/// single-byte characters of the layout alphabet.
pub open spec fn item_of_byte(b: u8) -> Option<GarbageItem> {
    if b < 128 {
        item_of_char(b as char)
    } else {
        None
    }
}

/// The index of the first line feed in `s`, or `s.len()` when none occurs.
pub open spec fn first_line_feed(s: Seq<u8>) -> nat
    decreases s.len(),
{
    if s.len() == 0 {
        0
    } else if s[0] == 10 {
        0
    } else {
        1 + first_line_feed(s.drop_first())
    }
}

pub proof fn lemma_first_line_feed(s: Seq<u8>)
    ensures
        0 <= first_line_feed(s) <= s.len(),
        first_line_feed(s) < s.len() ==> s[first_line_feed(s) as int] == 10,
        forall|j: int| 0 <= j < first_line_feed(s) ==> s[j] != 10,
    decreases s.len(),
{
    if s.len() > 0 && s[0] != 10 {
        lemma_first_line_feed(s.drop_first());
        assert(forall|j: int| 0 <= j < s.drop_first().len() ==> s.drop_first()[j] == s[j + 1]);
        assert forall|j: int| 0 <= j < first_line_feed(s) implies s[j] != 10 by {
            if j > 0 {
                assert(s.drop_first()[j - 1] == s[j]);
            }
        }
    }
}

/// A position at which the stated property holds is the first line feed.
pub proof fn lemma_first_line_feed_char(s: Seq<u8>, p: int)
    requires
        0 <= p <= s.len(),
        p < s.len() ==> s[p] == 10,
        p == s.len() || s[p] == 10,
        forall|j: int| 0 <= j < p ==> s[j] != 10,
    ensures
        first_line_feed(s) == p,
    decreases s.len(),
{
    if s.len() > 0 && s[0] != 10 {
        assert(forall|j: int| 0 <= j < s.drop_first().len() ==> s.drop_first()[j] == s[j + 1]);
        lemma_first_line_feed_char(s.drop_first(), p - 1);
    }
}

/// A line with its line break stripped: a trailing carriage return belongs
/// to the break.
pub open spec fn trim_break(line: Seq<u8>) -> Seq<u8> {
    if line.len() > 0 && line.last() == 13 {
        line.drop_last()
    } else {
        line
    }
}

/// The lines of the input: split at every line feed, each stripped of its
/// line break; a final line feed closes the last line instead of opening an
/// empty one.
pub open spec fn split_lines(s: Seq<u8>) -> Seq<Seq<u8>>
    decreases s.len(),
    via split_lines_decreases
{
    if s.len() == 0 {
        Seq::empty()
    } else {
        let p = first_line_feed(s) as int;
        if p == s.len() {
            seq![trim_break(s)]
        } else {
            seq![trim_break(s.take(p))] + split_lines(s.skip(p + 1))
        }
    }
}

#[via_fn]
proof fn split_lines_decreases(s: Seq<u8>) {
    lemma_first_line_feed(s);
}

/// The scan state inside one line: the column reached and the items placed.
pub ghost struct RowState {
    pub column: int,
    pub items: Seq<(GarbageItem, (usize, usize))>,
}

/// One layer scanned through its first `n` bytes: item codes place an item
/// at their column, and every byte that begins a character advances the
/// column.
pub open spec fn row_scan(line: Seq<u8>, y: usize, n: nat) -> RowState
    decreases n,
{
    if n == 0 {
        RowState { column: 0, items: Seq::empty() }
    } else {
        let prev = row_scan(line, y, (n - 1) as nat);
        let b = line[n - 1];
        RowState {
            column: if starts_char(b) {
                prev.column + 1
            } else {
                prev.column
            },
            items: if starts_char(b) && item_of_byte(b) is Some {
                prev.items.push(((item_of_byte(b)->0, (prev.column as usize, y))))
            } else {
                prev.items
            },
        }
    }
}

/// The items of the lowest `rows` layers, bottom layer first: layer `y` is
/// the line `y` places up from the last.
pub open spec fn grid_scan(lines: Seq<Seq<u8>>, rows: nat) -> Seq<(GarbageItem, (usize, usize))>
    decreases rows,
{
    if rows == 0 {
        Seq::empty()
    } else {
        let line = lines[lines.len() - rows];
        grid_scan(lines, (rows - 1) as nat) + row_scan(line, (rows - 1) as usize, line.len()).items
    }
}

/// Every item placed by a layout: all layers, bottom first.
pub open spec fn build_items(s: Seq<u8>) -> Seq<(GarbageItem, (usize, usize))> {
    grid_scan(split_lines(s), split_lines(s).len())
}

/// A parsed prefab: the items of a layout with their grid coordinates.
pub struct ItemBuild {
    items: Vec<(GarbageItem, (usize, usize))>,
}

impl View for ItemBuild {
    type V = Seq<(GarbageItem, (usize, usize))>;

    closed spec fn view(&self) -> Seq<(GarbageItem, (usize, usize))> {
        self.items@
    }
}

impl ItemBuild {
    /// The placed items with their grid coordinates, in scan order.
    pub fn items(&self) -> (r: &Vec<(GarbageItem, (usize, usize))>)
        ensures
            r@ == self@,
    {
        &self.items
    }

    /// Reads a layout from its encoded text.
    pub fn parse(bytes: &[u8]) -> (r: ItemBuild)
        requires
            bytes@.len() <= usize::MAX - 1,
        ensures
            r@ == build_items(bytes@),
    {
        let n = bytes.len();
        // First pass: the line boundaries, as ranges with breaks stripped.
        let mut ranges: Vec<(usize, usize)> = Vec::new();
        let mut pos: usize = 0;
        proof {
            assert(ranges@.map_values(
                |r: (usize, usize)| bytes@.subrange(r.0 as int, r.1 as int),
            ) =~= Seq::<Seq<u8>>::empty());
            assert(bytes@.skip(0) =~= bytes@);
        }
        while pos < n
            invariant
                pos <= n,
                n == bytes@.len() <= usize::MAX - 1,
                pos == n || pos == 0 || bytes@[pos - 1] == 10,
                split_lines(bytes@) =~= ranges@.map_values(
                    |r: (usize, usize)| bytes@.subrange(r.0 as int, r.1 as int),
                ) + split_lines(bytes@.skip(pos as int)),
                forall|k: int|
                    0 <= k < ranges@.len() ==> 0 <= (#[trigger] ranges@[k]).0 <= ranges@[k].1
                        <= bytes@.len(),
            decreases n - pos,
        {
            let start = pos;
            let mut cut = pos;
            while cut < n && bytes[cut] != 10
                invariant
                    start <= cut <= n,
                    n == bytes@.len(),
                    forall|j: int| start <= j < cut ==> bytes@[j] != 10,
                decreases n - cut,
            {
                cut = cut + 1;
            }
            proof {
                let tail = bytes@.skip(start as int);
                assert(forall|j: int| 0 <= j < tail.len() ==> tail[j] == bytes@[start + j]);
                lemma_first_line_feed_char(tail, cut - start);
            }
            let mut stop = cut;
            if stop > start && bytes[stop - 1] == 13 {
                stop = stop - 1;
            }
            ranges.push((start, stop));
            proof {
                let tail = bytes@.skip(start as int);
                let p = cut - start;
                if cut < n {
                    assert(tail.take(p) =~= bytes@.subrange(start as int, cut as int));
                    assert(tail.skip(p + 1) =~= bytes@.skip(cut + 1));
                } else {
                    assert(tail =~= bytes@.subrange(start as int, cut as int));
                }
                assert(trim_break(bytes@.subrange(start as int, cut as int)) =~= bytes@.subrange(
                    start as int,
                    stop as int,
                ));
                assert(split_lines(bytes@) =~= ranges@.map_values(
                    |r: (usize, usize)| bytes@.subrange(r.0 as int, r.1 as int),
                ) + split_lines(bytes@.skip(if cut < n { cut + 1 } else { n as int })));
            }
            pos = if cut < n {
                cut + 1
            } else {
                n
            };
        }
        proof {
            assert(bytes@.skip(n as int) =~= Seq::<u8>::empty());
            assert(split_lines(bytes@) =~= ranges@.map_values(
                |r: (usize, usize)| bytes@.subrange(r.0 as int, r.1 as int),
            ));
        }
        let ghost lines = split_lines(bytes@);
        // Second pass: scan the lines from the last upward; layer y is the
        // line y places up from the bottom.
        let rows = ranges.len();
        let mut items: Vec<(GarbageItem, (usize, usize))> = Vec::new();
        let mut y: usize = 0;
        proof {
            assert(items@ =~= grid_scan(lines, 0));
        }
        while y < rows
            invariant
                y <= rows,
                rows == ranges@.len() == lines.len(),
                n == bytes@.len() <= usize::MAX - 1,
                lines =~= ranges@.map_values(
                    |r: (usize, usize)| bytes@.subrange(r.0 as int, r.1 as int),
                ),
                forall|k: int|
                    0 <= k < ranges@.len() ==> 0 <= (#[trigger] ranges@[k]).0 <= ranges@[k].1
                        <= bytes@.len(),
                items@ == grid_scan(lines, y as nat),
            decreases rows - y,
        {
            let (start, stop) = ranges[rows - 1 - y];
            let ghost line = lines[lines.len() - 1 - y as int];
            proof {
                assert(line =~= bytes@.subrange(start as int, stop as int));
            }
            let mut k: usize = start;
            let mut column: usize = 0;
            while k < stop
                invariant
                    start <= k <= stop <= n,
                    n == bytes@.len() <= usize::MAX - 1,
                    line =~= bytes@.subrange(start as int, stop as int),
                    column == row_scan(line, y, (k - start) as nat).column,
                    column <= k - start,
                    items@ == grid_scan(lines, y as nat) + row_scan(
                        line,
                        y,
                        (k - start) as nat,
                    ).items,
                decreases stop - k,
            {
                let b = bytes[k];
                proof {
                    assert(line[k - start] == b);
                }
                if b & 0xC0 != 0x80 {
                    if b < 128 {
                        match GarbageItem::from_char(b as char) {
                            Some(item) => {
                                items.push((item, (column, y)));
                            },
                            None => {
                            },
                        }
                    }
                    column = column + 1;
                }
                k = k + 1;
            }
            proof {
                assert(line.len() == stop - start);
                assert(items@ == grid_scan(lines, y as nat) + row_scan(line, y, line.len()).items);
                assert(lines[lines.len() - (y + 1)] =~= line);
            }
            y = y + 1;
        }
        ItemBuild { items }
    }
}

} // verus!
