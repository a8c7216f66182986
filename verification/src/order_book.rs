//! The order-book store and its maintenance operations.
//!
//! A book holds two sides of price levels, asks sorted strictly ascending
//! and bids strictly descending, each bounded to a configured depth. A
//! snapshot fills the book once; incremental diff entries then upsert or
//! delete single levels, after which each side is cut back to its depth.

use vstd::prelude::*;
use crate::fixed::spec_parse_fixed;
use crate::fixed::parse_fixed;
use crate::fixed::spec_parse_checksum;
use crate::fixed::parse_checksum;
use crate::fixed::dec_bytes;
use crate::fixed::push_dec;
use crate::fixed::fixed_text;
use crate::fixed::spec_fixed_text;
use crate::crc::crc32_of;
use crate::crc::crc32;
use crate::PRICE_DECIMALS;
use crate::VOLUME_DECIMALS;

verus! {

/// One resting quantity at a price.
///
/// Both fields are fixed-point values: the price carries
/// [`PRICE_DECIMALS`] decimal places and the volume [`VOLUME_DECIMALS`].
#[derive(Clone, Copy, Debug, PartialEq, Eq, Structural)]
pub struct Level {
    pub price: u64,
    pub volume: u64,
}

impl Level {
    /// The price as its decimal wire text, with all its decimal places.
    pub fn price_text(&self) -> (r: String)
        ensures
            r@ == spec_fixed_text(self.price, PRICE_DECIMALS as nat),
    {
        fixed_text(self.price, PRICE_DECIMALS)
    }

    /// The volume as its decimal wire text, with all its decimal places.
    pub fn volume_text(&self) -> (r: String)
        ensures
            r@ == spec_fixed_text(self.volume, VOLUME_DECIMALS as nat),
    {
        fixed_text(self.volume, VOLUME_DECIMALS)
    }
}

/// One wire entry of a snapshot or diff array: its elements in order,
/// with `None` standing for an element that was not a string.
#[derive(Clone, Debug)]
pub struct WireEntry {
    pub fields: Vec<Option<String>>,
}

/// Ghost state of an order book: its depth bound and both sides.
pub struct BookView {
    pub depth: nat,
    pub bids: Seq<Level>,
    pub asks: Seq<Level>,
}

/// Rank order within one side: on the ask side (`asc`) a lower price
/// comes first, on the bid side a higher one.
pub open spec fn ranked_before(asc: bool, a: u64, b: u64) -> bool {
    if asc {
        a < b
    } else {
        a > b
    }
}

/// True when the side is strictly sorted by rank, best level first.
pub open spec fn side_sorted(asc: bool, s: Seq<Level>) -> bool {
    forall|i: int, j: int|
        #![trigger s[i].price, s[j].price]
        0 <= i < j < s.len() ==> ranked_before(asc, s[i].price, s[j].price)
}

/// True when some level of `s` rests at `price`.
pub open spec fn has_price(s: Seq<Level>, price: u64) -> bool {
    exists|i: int| 0 <= i < s.len() && #[trigger] s[i].price == price
}

/// `s` without every level at `price`.
pub open spec fn remove_price(s: Seq<Level>, price: u64) -> Seq<Level>
    decreases s.len(),
{
    if s.len() == 0 {
        s
    } else if s.last().price == price {
        remove_price(s.drop_last(), price)
    } else {
        remove_price(s.drop_last(), price).push(s.last())
    }
}

/// `s` with the volume of every level at `price` set to `volume`.
pub open spec fn replace_price(s: Seq<Level>, price: u64, volume: u64) -> Seq<Level> {
    Seq::new(
        s.len(),
        |i: int|
            if s[i].price == price {
                Level { price, volume }
            } else {
                s[i]
            },
    )
}

/// The position at which a level at `price` belongs in `s`: the first
/// index whose level does not rank before `price`, or the end.
pub open spec fn insert_pos(asc: bool, s: Seq<Level>, price: u64) -> int
    decreases s.len(),
{
    if s.len() == 0 {
        0
    } else if ranked_before(asc, s.first().price, price) {
        1 + insert_pos(asc, s.drop_first(), price)
    } else {
        0
    }
}

/// Effect of one parsed diff entry on one side: volume zero deletes the
/// level at that price, a present price takes the new volume in place,
/// and an absent one is inserted at its rank.
pub open spec fn apply_entry(asc: bool, s: Seq<Level>, price: u64, volume: u64) -> Seq<Level> {
    if volume == 0 {
        remove_price(s, price)
    } else if has_price(s, price) {
        replace_price(s, price, volume)
    } else {
        s.insert(insert_pos(asc, s, price), Level { price, volume })
    }
}

/// The side cut back to at most `depth` levels, keeping the best-ranked.
pub open spec fn truncated(depth: nat, s: Seq<Level>) -> Seq<Level> {
    if s.len() <= depth {
        s
    } else {
        s.subrange(0, depth as int)
    }
}

/// A book's invariant: both sides strictly sorted best-first and bounded
/// by the depth. Strict sorting makes every price unique on its side.
pub open spec fn book_wf(b: BookView) -> bool {
    &&& side_sorted(true, b.asks)
    &&& side_sorted(false, b.bids)
    &&& b.asks.len() <= b.depth
    &&& b.bids.len() <= b.depth
}

// ------------------------------------------------------------------
// Facts about the side operations.
// ------------------------------------------------------------------

/// Every level of `remove_price(s, p)` is a level of `s` at an index at
/// least as large.
proof fn lemma_remove_price_elems(s: Seq<Level>, price: u64)
    ensures
        remove_price(s, price).len() <= s.len(),
        forall|i: int|
            0 <= i < remove_price(s, price).len() ==> exists|j: int|
                i <= j < s.len() && #[trigger] remove_price(s, price)[i] == s[j],
    decreases s.len(),
{
    if s.len() > 0 {
        lemma_remove_price_elems(s.drop_last(), price);
        let r = remove_price(s, price);
        let d = remove_price(s.drop_last(), price);
        assert forall|i: int| 0 <= i < r.len() implies exists|j: int|
            i <= j < s.len() && #[trigger] r[i] == s[j] by {
            if i < d.len() {
                let j = choose|j: int| i <= j < s.drop_last().len() && #[trigger] d[i] == s.drop_last()[j];
                assert(s.drop_last()[j] == s[j]);
                assert(r[i] == s[j]);
            } else {
                assert(r[i] == s.last());
                assert(r[i] == s[s.len() - 1]);
            }
        }
    }
}

/// Deleting a price keeps a side sorted.
proof fn lemma_remove_price_sorted(asc: bool, s: Seq<Level>, price: u64)
    requires
        side_sorted(asc, s),
    ensures
        side_sorted(asc, remove_price(s, price)),
    decreases s.len(),
{
    if s.len() > 0 {
        assert(forall|i: int|
            0 <= i < s.drop_last().len() ==> #[trigger] s.drop_last()[i] == s[i]);
        lemma_remove_price_sorted(asc, s.drop_last(), price);
        if s.last().price != price {
            let d = remove_price(s.drop_last(), price);
            lemma_remove_price_elems(s.drop_last(), price);
            assert forall|i: int, j: int|
                #![trigger d.push(s.last())[i].price, d.push(s.last())[j].price]
                0 <= i < j < d.push(s.last()).len() implies ranked_before(
                asc,
                d.push(s.last())[i].price,
                d.push(s.last())[j].price,
            ) by {
                if j == d.len() {
                    let k = choose|k: int|
                        i <= k < s.drop_last().len() && #[trigger] d[i] == s.drop_last()[k];
                    assert(s.drop_last()[k] == s[k]);
                    assert(ranked_before(asc, s[k].price, s[s.len() - 1].price));
                }
            }
        }
    }
}

/// Deleting an absent price changes nothing.
proof fn lemma_remove_price_absent(s: Seq<Level>, price: u64)
    requires
        !has_price(s, price),
    ensures
        remove_price(s, price) == s,
    decreases s.len(),
{
    if s.len() > 0 {
        assert(s[s.len() - 1].price != price);
        assert(forall|i: int|
            0 <= i < s.drop_last().len() ==> #[trigger] s.drop_last()[i] == s[i]);
        assert(!has_price(s.drop_last(), price));
        lemma_remove_price_absent(s.drop_last(), price);
        assert(remove_price(s, price) =~= s);
    }
}

/// When exactly one level rests at the price, deleting it removes that
/// level and nothing else.
proof fn lemma_remove_price_present(s: Seq<Level>, price: u64, i: int)
    requires
        0 <= i < s.len(),
        s[i].price == price,
        forall|j: int| 0 <= j < s.len() && j != i ==> #[trigger] s[j].price != price,
    ensures
        remove_price(s, price) == s.remove(i),
    decreases s.len(),
{
    if i == s.len() - 1 {
        assert(!has_price(s.drop_last(), price));
        lemma_remove_price_absent(s.drop_last(), price);
        assert(remove_price(s, price) =~= s.remove(i));
    } else {
        assert(forall|j: int|
            0 <= j < s.drop_last().len() ==> #[trigger] s.drop_last()[j] == s[j]);
        lemma_remove_price_present(s.drop_last(), price, i);
        assert(remove_price(s, price) =~= s.remove(i)) by {
            assert(remove_price(s, price) == remove_price(s.drop_last(), price).push(s.last()));
            assert(remove_price(s.drop_last(), price) == s.drop_last().remove(i));
        }
    }
}

/// The insertion position splits the side into levels ranked before the
/// price and levels ranked after it.
proof fn lemma_insert_pos(asc: bool, s: Seq<Level>, price: u64)
    requires
        side_sorted(asc, s),
        !has_price(s, price),
    ensures
        0 <= insert_pos(asc, s, price) <= s.len(),
        forall|j: int|
            0 <= j < insert_pos(asc, s, price) ==> ranked_before(asc, #[trigger] s[j].price, price),
        forall|j: int|
            insert_pos(asc, s, price) <= j < s.len() ==> ranked_before(
                asc,
                price,
                #[trigger] s[j].price,
            ),
    decreases s.len(),
{
    if s.len() > 0 {
        let d = s.drop_first();
        assert(forall|i: int| 0 <= i < d.len() ==> #[trigger] d[i] == s[i + 1]);
        assert(side_sorted(asc, d)) by {
            assert(forall|i: int, j: int|
                #![trigger d[i].price, d[j].price]
                0 <= i < j < d.len() ==> ranked_before(asc, d[i].price, d[j].price));
        }
        assert(!has_price(d, price)) by {
            if has_price(d, price) {
                let k = choose|k: int| 0 <= k < d.len() && #[trigger] d[k].price == price;
                assert(s[k + 1].price == price);
            }
        }
        lemma_insert_pos(asc, d, price);
        if ranked_before(asc, s.first().price, price) {
            assert forall|j: int|
                0 <= j < insert_pos(asc, s, price) implies ranked_before(
                asc,
                #[trigger] s[j].price,
                price,
            ) by {
                if j > 0 {
                    assert(d[j - 1] == s[j]);
                }
            }
            assert forall|j: int|
                insert_pos(asc, s, price) <= j < s.len() implies ranked_before(
                asc,
                price,
                #[trigger] s[j].price,
            ) by {
                assert(d[j - 1] == s[j]);
            }
        } else {
            assert(s.first().price != price) by {
                assert(s[0].price == s.first().price);
            }
            assert(ranked_before(asc, price, s.first().price));
            assert forall|j: int| 0 <= j < s.len() implies ranked_before(
                asc,
                price,
                #[trigger] s[j].price,
            ) by {
                if j > 0 {
                    assert(ranked_before(asc, s[0].price, s[j].price));
                }
            }
        }
    }
}

/// Inserting a fresh price at its position keeps the side sorted.
proof fn lemma_insert_sorted(asc: bool, s: Seq<Level>, price: u64, volume: u64)
    requires
        side_sorted(asc, s),
        !has_price(s, price),
    ensures
        side_sorted(asc, s.insert(insert_pos(asc, s, price), Level { price, volume })),
    decreases s.len(),
{
    lemma_insert_pos(asc, s, price);
    let p = insert_pos(asc, s, price);
    let r = s.insert(p, Level { price, volume });
    assert forall|i: int, j: int|
        #![trigger r[i].price, r[j].price]
        0 <= i < j < r.len() implies ranked_before(
        asc,
        r[i].price,
        r[j].price,
    ) by {
        assert(forall|k: int| 0 <= k < p ==> r[k] == s[k]);
        assert(r[p] == Level { price, volume });
        assert(forall|k: int| p < k < r.len() ==> r[k] == s[k - 1]);
    }
}

// ------------------------------------------------------------------
// Executable side operations.
// ------------------------------------------------------------------

/// True when some level of the side rests at `price`.
fn contains_price(side: &Vec<Level>, price: u64) -> (r: bool)
    ensures
        r == has_price(side@, price),
{
    let n = side.len();
    let mut i: usize = 0;
    while i < n
        invariant
            0 <= i <= n == side@.len(),
            forall|j: int| 0 <= j < i ==> #[trigger] side@[j].price != price,
        decreases n - i,
    {
        if side[i].price == price {
            return true;
        }
        i = i + 1;
    }
    false
}

/// Removes every level at `price` from the side.
fn remove_level(side: &mut Vec<Level>, price: u64)
    ensures
        final(side)@ == remove_price(old(side)@, price),
{
    let n = side.len();
    let mut out: Vec<Level> = Vec::new();
    let mut i: usize = 0;
    while i < n
        invariant
            0 <= i <= n == side@.len(),
            out@ == remove_price(side@.subrange(0, i as int), price),
        decreases n - i,
    {
        proof {
            assert(side@.subrange(0, i + 1 as int).drop_last() =~= side@.subrange(0, i as int));
            assert(side@.subrange(0, i + 1 as int).last() == side@[i as int]);
        }
        let l = side[i];
        if l.price != price {
            out.push(l);
        }
        i = i + 1;
    }
    proof {
        assert(side@.subrange(0, n as int) =~= side@);
    }
    *side = out;
}

/// Sets the volume of every level at `price` to `volume`.
fn set_level_volume(side: &mut Vec<Level>, price: u64, volume: u64)
    ensures
        final(side)@ == replace_price(old(side)@, price, volume),
{
    let n = side.len();
    let mut out: Vec<Level> = Vec::new();
    let mut i: usize = 0;
    while i < n
        invariant
            0 <= i <= n == side@.len(),
            out@.len() == i,
            forall|j: int| 0 <= j < i ==> out@[j] == replace_price(side@, price, volume)[j],
        decreases n - i,
    {
        let l = side[i];
        if l.price == price {
            out.push(Level { price, volume });
        } else {
            out.push(l);
        }
        i = i + 1;
    }
    proof {
        assert(out@ =~= replace_price(side@, price, volume));
    }
    *side = out;
}

/// Rank order within one side, decided at run time.
fn ranks_before(asc: bool, a: u64, b: u64) -> (r: bool)
    ensures
        r == ranked_before(asc, a, b),
{
    if asc {
        a < b
    } else {
        a > b
    }
}

/// Inserts a level at its rank position on the side.
fn insert_level(side: &mut Vec<Level>, asc: bool, lvl: Level)
    ensures
        final(side)@ == old(side)@.insert(insert_pos(asc, old(side)@, lvl.price), lvl),
{
    let n = side.len();
    let mut i: usize = 0;
    while i < n && ranks_before(asc, side[i].price, lvl.price)
        invariant
            0 <= i <= n == side@.len(),
            forall|j: int| 0 <= j < i ==> ranked_before(asc, #[trigger] side@[j].price, lvl.price),
        decreases n - i,
    {
        i = i + 1;
    }
    proof {
        lemma_insert_pos_unique(asc, side@, lvl.price, i as int);
    }
    side.insert(i, lvl);
}

/// Any position preceded only by earlier-ranked levels and followed by a
/// level not ranked earlier is the insertion position.
proof fn lemma_insert_pos_unique(asc: bool, s: Seq<Level>, price: u64, i: int)
    requires
        0 <= i <= s.len(),
        forall|j: int| 0 <= j < i ==> ranked_before(asc, #[trigger] s[j].price, price),
        i < s.len() ==> !ranked_before(asc, s[i].price, price),
    ensures
        insert_pos(asc, s, price) == i,
    decreases s.len(),
{
    if s.len() > 0 {
        let d = s.drop_first();
        assert(forall|k: int| 0 <= k < d.len() ==> #[trigger] d[k] == s[k + 1]);
        if ranked_before(asc, s.first().price, price) {
            assert(s[0] == s.first());
            assert(i >= 1);
            lemma_insert_pos_unique(asc, d, price, i - 1);
        } else {
            assert(s[0] == s.first());
            assert(i == 0);
        }
    }
}

/// Applies one parsed diff entry to one side.
fn apply_level(side: &mut Vec<Level>, asc: bool, price: u64, volume: u64)
    ensures
        final(side)@ == apply_entry(asc, old(side)@, price, volume),
{
    if volume == 0 {
        remove_level(side, price);
    } else if contains_price(side, price) {
        set_level_volume(side, price, volume);
    } else {
        insert_level(side, asc, Level { price, volume });
    }
}

/// One diff application preserves sortedness of the side.
proof fn lemma_apply_entry_sorted(asc: bool, s: Seq<Level>, price: u64, volume: u64)
    requires
        side_sorted(asc, s),
    ensures
        side_sorted(asc, apply_entry(asc, s, price, volume)),
{
    if volume == 0 {
        lemma_remove_price_sorted(asc, s, price);
    } else if has_price(s, price) {
        let r = replace_price(s, price, volume);
        assert(forall|i: int| 0 <= i < r.len() ==> #[trigger] r[i].price == s[i].price);
    } else {
        lemma_insert_sorted(asc, s, price, volume);
    }
}

// ------------------------------------------------------------------
// Wire entries.
// ------------------------------------------------------------------

/// The value of a parse result, with failure degraded to zero, as the
/// diff path treats unparsable strings.
pub open spec fn or_zero(o: Option<u64>) -> u64 {
    match o {
        Some(v) => v,
        None => 0,
    }
}

/// The level a snapshot entry describes: its first two elements read as
/// price and volume. An entry that is too short, has a non-string where
/// price or volume belongs, or fails to parse yields nothing and is
/// dropped.
pub open spec fn snap_level(e: WireEntry) -> Option<Level> {
    if e.fields@.len() >= 2 && e.fields@[0] is Some && e.fields@[1] is Some {
        let p = spec_parse_fixed((e.fields@[0]->0)@, PRICE_DECIMALS as nat);
        let v = spec_parse_fixed((e.fields@[1]->0)@, VOLUME_DECIMALS as nat);
        if p is Some && v is Some {
            Some(Level { price: p->0, volume: v->0 })
        } else {
            None
        }
    } else {
        None
    }
}

/// The price and volume a diff entry carries: three string elements are
/// required, and a price or volume that fails to parse degrades to zero.
/// Anything past the third element (a republish marker) has no effect.
pub open spec fn diff_entry(e: WireEntry) -> Option<(u64, u64)> {
    if e.fields@.len() >= 3 && e.fields@[0] is Some && e.fields@[1] is Some && e.fields@[2]
        is Some {
        Some(
            (
                or_zero(spec_parse_fixed((e.fields@[0]->0)@, PRICE_DECIMALS as nat)),
                or_zero(spec_parse_fixed((e.fields@[1]->0)@, VOLUME_DECIMALS as nat)),
            ),
        )
    } else {
        None
    }
}

/// Reads a snapshot entry, exactly as [`snap_level`] describes.
fn parse_snap_entry(e: &WireEntry) -> (r: Option<Level>)
    ensures
        r == snap_level(*e),
{
    if e.fields.len() < 2 {
        return None;
    }
    let price = match &e.fields[0] {
        Some(s) => match parse_fixed(s.as_str(), PRICE_DECIMALS) {
            Some(p) => p,
            None => {
                return None;
            },
        },
        None => {
            return None;
        },
    };
    let volume = match &e.fields[1] {
        Some(s) => match parse_fixed(s.as_str(), VOLUME_DECIMALS) {
            Some(v) => v,
            None => {
                return None;
            },
        },
        None => {
            return None;
        },
    };
    Some(Level { price, volume })
}

/// Reads a diff entry, exactly as [`diff_entry`] describes.
fn parse_diff_entry(e: &WireEntry) -> (r: Option<(u64, u64)>)
    ensures
        r == diff_entry(*e),
{
    if e.fields.len() < 3 {
        return None;
    }
    match (&e.fields[0], &e.fields[1], &e.fields[2]) {
        (Some(ps), Some(vs), Some(_)) => {
            let price = match parse_fixed(ps.as_str(), PRICE_DECIMALS) {
                Some(p) => p,
                None => 0,
            };
            let volume = match parse_fixed(vs.as_str(), VOLUME_DECIMALS) {
                Some(v) => v,
                None => 0,
            };
            Some((price, volume))
        },
        _ => None,
    }
}

// ------------------------------------------------------------------
// Whole-side transformations.
// ------------------------------------------------------------------

/// Effect of a whole diff array on one side, entry by entry in order;
/// entries that [`diff_entry`] rejects are skipped.
pub open spec fn apply_diffs(asc: bool, s: Seq<Level>, entries: Seq<WireEntry>) -> Seq<Level>
    decreases entries.len(),
{
    if entries.len() == 0 {
        s
    } else {
        let t = match diff_entry(entries.first()) {
            Some(pv) => apply_entry(asc, s, pv.0, pv.1),
            None => s,
        };
        apply_diffs(asc, t, entries.drop_first())
    }
}

/// Effect of one snapshot entry on a side under construction: entries
/// that fail to read are dropped, and an entry whose price is already
/// taken is dropped too, keeping prices unique.
pub open spec fn snap_step(asc: bool, acc: Seq<Level>, e: WireEntry) -> Seq<Level> {
    match snap_level(e) {
        Some(l) => if has_price(acc, l.price) {
            acc
        } else {
            acc.insert(insert_pos(asc, acc, l.price), l)
        },
        None => acc,
    }
}

/// Fold of [`snap_step`] over a snapshot array.
pub open spec fn snap_fold(asc: bool, acc: Seq<Level>, entries: Seq<WireEntry>) -> Seq<Level>
    decreases entries.len(),
{
    if entries.len() == 0 {
        acc
    } else {
        snap_fold(asc, snap_step(asc, acc, entries.first()), entries.drop_first())
    }
}

/// The side a snapshot array yields: its first `depth` entries, read,
/// deduplicated and ranked.
pub open spec fn snapshot_side(asc: bool, entries: Seq<WireEntry>, depth: nat) -> Seq<Level> {
    snap_fold(
        asc,
        Seq::empty(),
        entries.take(
            if entries.len() <= depth {
                entries.len() as int
            } else {
                depth as int
            },
        ),
    )
}

/// Applies a whole diff array to one side.
fn apply_side(side: &mut Vec<Level>, asc: bool, entries: &Vec<WireEntry>)
    ensures
        final(side)@ == apply_diffs(asc, old(side)@, entries@),
        side_sorted(asc, old(side)@) ==> side_sorted(asc, final(side)@),
{
    let n = entries.len();
    let mut i: usize = 0;
    proof {
        assert(entries@.skip(0) =~= entries@);
    }
    while i < n
        invariant
            0 <= i <= n == entries@.len(),
            apply_diffs(asc, side@, entries@.skip(i as int)) == apply_diffs(
                asc,
                old(side)@,
                entries@,
            ),
            side_sorted(asc, old(side)@) ==> side_sorted(asc, side@),
        decreases n - i,
    {
        proof {
            assert(entries@.skip(i as int).first() == entries@[i as int]);
            assert(entries@.skip(i as int).drop_first() =~= entries@.skip(i + 1 as int));
        }
        let ghost pre = side@;
        match parse_diff_entry(&entries[i]) {
            Some(pv) => {
                apply_level(side, asc, pv.0, pv.1);
                proof {
                    if side_sorted(asc, old(side)@) {
                        lemma_apply_entry_sorted(asc, pre, pv.0, pv.1);
                    }
                }
            },
            None => {},
        }
        i = i + 1;
    }
    proof {
        assert(entries@.skip(n as int) =~= Seq::<WireEntry>::empty());
    }
}

/// Builds one side from a snapshot array.
fn init_side(entries: &Vec<WireEntry>, asc: bool, depth: usize) -> (r: Vec<Level>)
    ensures
        r@ == snapshot_side(asc, entries@, depth as nat),
        side_sorted(asc, r@),
        r@.len() <= depth,
{
    let limit = if entries.len() <= depth {
        entries.len()
    } else {
        depth
    };
    let ghost taken = entries@.take(limit as int);
    let mut out: Vec<Level> = Vec::new();
    let mut i: usize = 0;
    proof {
        assert(taken.skip(0) =~= taken);
    }
    while i < limit
        invariant
            0 <= i <= limit <= entries@.len(),
            taken == entries@.take(limit as int),
            snap_fold(asc, out@, taken.skip(i as int)) == snap_fold(asc, Seq::empty(), taken),
            side_sorted(asc, out@),
            out@.len() <= i,
        decreases limit - i,
    {
        proof {
            assert(taken.skip(i as int).first() == entries@[i as int]);
            assert(taken.skip(i as int).drop_first() =~= taken.skip(i + 1 as int));
        }
        let ghost pre = out@;
        match parse_snap_entry(&entries[i]) {
            Some(l) => {
                if !contains_price(&out, l.price) {
                    proof {
                        lemma_insert_pos(asc, pre, l.price);
                        lemma_insert_sorted(asc, pre, l.price, l.volume);
                    }
                    insert_level(&mut out, asc, l);
                    proof {
                        assert(out@.len() == pre.len() + 1);
                    }
                }
            },
            None => {},
        }
        i = i + 1;
    }
    proof {
        assert(taken.skip(limit as int) =~= Seq::<WireEntry>::empty());
    }
    out
}

// ------------------------------------------------------------------
// Checksum encoding.
// ------------------------------------------------------------------

/// Canonical bytes of one level: the decimal digits of the scaled price
/// followed by those of the scaled volume, leading zeros stripped, a
/// zero value stripped to nothing.
pub open spec fn level_bytes(l: Level) -> Seq<u8> {
    dec_bytes(l.price as nat) + dec_bytes(l.volume as nat)
}

/// Canonical bytes of a run of levels, in order.
pub open spec fn side_bytes(s: Seq<Level>) -> Seq<u8>
    decreases s.len(),
{
    if s.len() == 0 {
        Seq::empty()
    } else {
        level_bytes(s.first()) + side_bytes(s.drop_first())
    }
}

/// The canonical checksum input: the top ten asks then the top ten bids,
/// each side best level first.
pub open spec fn checksum_bytes(b: BookView) -> Seq<u8> {
    side_bytes(truncated(10, b.asks)) + side_bytes(truncated(10, b.bids))
}

/// Appends the canonical bytes of the best ten levels of a side.
fn append_side_bytes(buf: &mut Vec<u8>, side: &Vec<Level>)
    ensures
        final(buf)@ == old(buf)@ + side_bytes(truncated(10, side@)),
{
    let limit = if side.len() <= 10 {
        side.len()
    } else {
        10
    };
    let ghost head = truncated(10, side@);
    proof {
        assert(head.len() == limit);
        assert(forall|j: int| 0 <= j < head.len() ==> #[trigger] head[j] == side@[j]);
    }
    let mut i: usize = 0;
    proof {
        assert(head.skip(0) =~= head);
    }
    while i < limit
        invariant
            0 <= i <= limit <= side@.len(),
            head == truncated(10, side@),
            head.len() == limit,
            forall|j: int| 0 <= j < head.len() ==> #[trigger] head[j] == side@[j],
            buf@ + side_bytes(head.skip(i as int)) == old(buf)@ + side_bytes(head),
        decreases limit - i,
    {
        proof {
            assert(head.skip(i as int).first() == head[i as int]);
            assert(head.skip(i as int).drop_first() =~= head.skip(i + 1 as int));
        }
        let ghost before = buf@;
        let l = side[i];
        push_dec(l.price, buf);
        push_dec(l.volume, buf);
        proof {
            assert(buf@ =~= before + level_bytes(head[i as int]));
            assert(buf@ + side_bytes(head.skip(i + 1 as int)) =~= before + side_bytes(
                head.skip(i as int),
            ));
        }
        i = i + 1;
    }
    proof {
        assert(head.skip(limit as int) =~= Seq::<Level>::empty());
        assert(buf@ + side_bytes(head.skip(limit as int)) =~= buf@);
    }
}

// ------------------------------------------------------------------
// The store.
// ------------------------------------------------------------------

/// What became of the upstream checksum carried by one update.
#[derive(Clone, Copy, Debug, PartialEq, Eq, Structural)]
pub enum ChecksumOutcome {
    /// The recomputed checksum equals the supplied one.
    Matched { value: u32 },
    /// The recomputed checksum differs: the mirror has desynchronized.
    Mismatched { computed: u32, supplied: u32 },
    /// No checksum was supplied, or it was not an unsigned 32-bit
    /// decimal; the book itself is unaffected.
    Unusable,
}

/// A bounded mirror of one instrument's book: bids and asks, best level
/// first, at most `depth` levels per side.
#[derive(Debug)]
pub struct OrderBook {
    depth: usize,
    bids: Vec<Level>,
    asks: Vec<Level>,
}

impl View for OrderBook {
    type V = BookView;

    closed spec fn view(&self) -> BookView {
        BookView { depth: self.depth as nat, bids: self.bids@, asks: self.asks@ }
    }
}

impl OrderBook {
    /// An empty book bounded to `depth` levels per side.
    pub fn new(depth: usize) -> (r: OrderBook)
        ensures
            r@.depth == depth as nat,
            r@.asks == Seq::<Level>::empty(),
            r@.bids == Seq::<Level>::empty(),
            book_wf(r@),
    {
        OrderBook { depth, bids: Vec::new(), asks: Vec::new() }
    }

    /// The ask side, best (lowest) price first.
    pub fn asks(&self) -> (r: &Vec<Level>)
        ensures
            r@ == self@.asks,
    {
        &self.asks
    }

    /// The bid side, best (highest) price first.
    pub fn bids(&self) -> (r: &Vec<Level>)
        ensures
            r@ == self@.bids,
    {
        &self.bids
    }

    /// The configured depth bound.
    pub fn depth(&self) -> (r: usize)
        ensures
            r as nat == self@.depth,
    {
        self.depth
    }

    /// Replaces each side present in a snapshot with the levels its
    /// entries describe, ranked best-first and cut to the depth; a side
    /// not present keeps its prior contents.
    ///
    /// Meant as the first operation on an empty book; calling it again
    /// is safe but discards the sides it replaces.
    pub fn initialize(&mut self, asks: Option<&Vec<WireEntry>>, bids: Option<&Vec<WireEntry>>)
        ensures
            final(self)@.depth == old(self)@.depth,
            asks is Some ==> final(self)@.asks == snapshot_side(
                true,
                (asks->0)@,
                old(self)@.depth,
            ),
            asks is None ==> final(self)@.asks == old(self)@.asks,
            bids is Some ==> final(self)@.bids == snapshot_side(
                false,
                (bids->0)@,
                old(self)@.depth,
            ),
            bids is None ==> final(self)@.bids == old(self)@.bids,
            asks is Some ==> side_sorted(true, final(self)@.asks) && final(self)@.asks.len()
                <= final(self)@.depth,
            bids is Some ==> side_sorted(false, final(self)@.bids) && final(self)@.bids.len()
                <= final(self)@.depth,
            book_wf(old(self)@) ==> book_wf(final(self)@),
    {
        match asks {
            Some(entries) => {
                self.asks = init_side(entries, true, self.depth);
            },
            None => {},
        }
        match bids {
            Some(entries) => {
                self.bids = init_side(entries, false, self.depth);
            },
            None => {},
        }
    }

    /// Applies one incremental update: every ask diff entry, then every
    /// bid diff entry, then cuts both sides back to the depth, keeping
    /// the best-ranked levels.
    pub fn update(&mut self, asks: &Vec<WireEntry>, bids: &Vec<WireEntry>)
        ensures
            final(self)@.depth == old(self)@.depth,
            final(self)@.asks == truncated(
                old(self)@.depth,
                apply_diffs(true, old(self)@.asks, asks@),
            ),
            final(self)@.bids == truncated(
                old(self)@.depth,
                apply_diffs(false, old(self)@.bids, bids@),
            ),
            book_wf(old(self)@) ==> book_wf(final(self)@),
    {
        apply_side(&mut self.asks, true, asks);
        apply_side(&mut self.bids, false, bids);
        self.truncate_to_depth();
    }

    /// Cuts both sides back to the depth bound.
    fn truncate_to_depth(&mut self)
        ensures
            final(self)@.depth == old(self)@.depth,
            final(self)@.asks == truncated(old(self)@.depth, old(self)@.asks),
            final(self)@.bids == truncated(old(self)@.depth, old(self)@.bids),
            side_sorted(true, old(self)@.asks) ==> side_sorted(true, final(self)@.asks),
            side_sorted(false, old(self)@.bids) ==> side_sorted(false, final(self)@.bids),
    {
        let ghost pre_asks = self.asks@;
        let ghost pre_bids = self.bids@;
        if self.asks.len() > self.depth {
            self.asks.truncate(self.depth);
        }
        if self.bids.len() > self.depth {
            self.bids.truncate(self.depth);
        }
        proof {
            assert(self.asks@ == truncated(self.depth as nat, pre_asks));
            assert(self.bids@ == truncated(self.depth as nat, pre_bids));
            if side_sorted(true, pre_asks) {
                assert(forall|j: int|
                    0 <= j < self.asks@.len() ==> #[trigger] self.asks@[j] == pre_asks[j]);
            }
            if side_sorted(false, pre_bids) {
                assert(forall|j: int|
                    0 <= j < self.bids@.len() ==> #[trigger] self.bids@[j] == pre_bids[j]);
            }
        }
    }

    /// The CRC-32 of the canonical encoding of the top ten levels per
    /// side: asks first, then bids, each best level first, each level as
    /// scaled price digits then scaled volume digits.
    pub fn calculate_checksum(&self) -> (r: u32)
        ensures
            r == crc32_of(checksum_bytes(self@)),
    {
        let mut buf: Vec<u8> = Vec::new();
        append_side_bytes(&mut buf, &self.asks);
        append_side_bytes(&mut buf, &self.bids);
        crc32(&buf)
    }

    /// Applies one incremental update and then holds the book against
    /// the checksum the update carried, if a usable one did: the
    /// recomputed value either matches the supplied one or reports the
    /// mirror as desynchronized. The book keeps the applied update
    /// either way.
    pub fn process_update(
        &mut self,
        asks: &Vec<WireEntry>,
        bids: &Vec<WireEntry>,
        checksum: Option<&String>,
    ) -> (r: ChecksumOutcome)
        ensures
            final(self)@.depth == old(self)@.depth,
            final(self)@.asks == truncated(
                old(self)@.depth,
                apply_diffs(true, old(self)@.asks, asks@),
            ),
            final(self)@.bids == truncated(
                old(self)@.depth,
                apply_diffs(false, old(self)@.bids, bids@),
            ),
            book_wf(old(self)@) ==> book_wf(final(self)@),
            match r {
                ChecksumOutcome::Matched { value } => {
                    &&& checksum is Some
                    &&& spec_parse_checksum((checksum->0)@) == Some(value)
                    &&& crc32_of(checksum_bytes(final(self)@)) == value
                },
                ChecksumOutcome::Mismatched { computed, supplied } => {
                    &&& checksum is Some
                    &&& spec_parse_checksum((checksum->0)@) == Some(supplied)
                    &&& computed == crc32_of(checksum_bytes(final(self)@))
                    &&& computed != supplied
                },
                ChecksumOutcome::Unusable => checksum is None || spec_parse_checksum(
                    (checksum->0)@,
                ) is None,
            },
    {
        self.update(asks, bids);
        match checksum {
            Some(text) => match parse_checksum(text.as_str()) {
                Some(supplied) => {
                    let computed = self.calculate_checksum();
                    if computed == supplied {
                        ChecksumOutcome::Matched { value: supplied }
                    } else {
                        ChecksumOutcome::Mismatched { computed, supplied }
                    }
                },
                None => ChecksumOutcome::Unusable,
            },
            None => ChecksumOutcome::Unusable,
        }
    }
}

// ------------------------------------------------------------------
// Laws of the maintenance operations.
// ------------------------------------------------------------------

/// On a sorted side no two levels share a price: strict rank order
/// separates every pair.
pub proof fn lemma_side_prices_unique(asc: bool, s: Seq<Level>)
    requires
        side_sorted(asc, s),
    ensures
        forall|i: int, j: int|
            #![trigger s[i].price, s[j].price]
            0 <= i < s.len() && 0 <= j < s.len() && i != j ==> s[i].price != s[j].price,
{
}

/// A diff entry with volume zero for an absent price is a no-op: the
/// side comes back unchanged.
pub proof fn lemma_delete_absent(asc: bool, s: Seq<Level>, price: u64)
    requires
        !has_price(s, price),
    ensures
        apply_entry(asc, s, price, 0) == s,
{
    lemma_remove_price_absent(s, price);
}

/// A diff entry with volume zero for a present price removes exactly
/// that level and no other.
pub proof fn lemma_delete_present(asc: bool, s: Seq<Level>, price: u64, i: int)
    requires
        side_sorted(asc, s),
        0 <= i < s.len(),
        s[i].price == price,
    ensures
        apply_entry(asc, s, price, 0) == s.remove(i),
{
    lemma_side_prices_unique(asc, s);
    lemma_remove_price_present(s, price, i);
}

/// A diff entry with nonzero volume for a present price changes only
/// that level's volume: the side keeps its length and every other level
/// stays in place.
pub proof fn lemma_update_present(asc: bool, s: Seq<Level>, price: u64, volume: u64, i: int)
    requires
        side_sorted(asc, s),
        0 <= i < s.len(),
        s[i].price == price,
        volume != 0,
    ensures
        apply_entry(asc, s, price, volume) == s.update(i, Level { price, volume }),
        apply_entry(asc, s, price, volume).len() == s.len(),
        forall|j: int|
            0 <= j < s.len() && j != i ==> apply_entry(asc, s, price, volume)[j] == #[trigger] s[j],
{
    lemma_side_prices_unique(asc, s);
    assert(apply_entry(asc, s, price, volume) =~= s.update(i, Level { price, volume }));
}

/// A diff entry with nonzero volume for an absent price inserts one new
/// level at its rank position, leaving the rest of the side in order
/// around it.
pub proof fn lemma_insert_new(asc: bool, s: Seq<Level>, price: u64, volume: u64)
    requires
        side_sorted(asc, s),
        !has_price(s, price),
        volume != 0,
    ensures
        0 <= insert_pos(asc, s, price) <= s.len(),
        apply_entry(asc, s, price, volume) == s.insert(
            insert_pos(asc, s, price),
            Level { price, volume },
        ),
        apply_entry(asc, s, price, volume).len() == s.len() + 1,
        side_sorted(asc, apply_entry(asc, s, price, volume)),
        forall|j: int|
            0 <= j < insert_pos(asc, s, price) ==> ranked_before(asc, #[trigger] s[j].price, price),
        forall|j: int|
            insert_pos(asc, s, price) <= j < s.len() ==> ranked_before(
                asc,
                price,
                #[trigger] s[j].price,
            ),
{
    lemma_insert_pos(asc, s, price);
    lemma_insert_sorted(asc, s, price, volume);
}

/// Cutting a sorted side to its depth keeps exactly the best-ranked
/// levels, in place, and evicts only levels ranked after every kept one.
pub proof fn lemma_truncate_evicts_worst(asc: bool, s: Seq<Level>, depth: nat)
    requires
        side_sorted(asc, s),
    ensures
        truncated(depth, s).len() == if s.len() <= depth {
            s.len()
        } else {
            depth
        },
        forall|i: int|
            0 <= i < truncated(depth, s).len() ==> #[trigger] truncated(depth, s)[i] == s[i],
        forall|i: int, j: int|
            #![trigger s[i].price, s[j].price]
            0 <= i < truncated(depth, s).len() && truncated(depth, s).len() <= j < s.len()
                ==> ranked_before(asc, s[i].price, s[j].price),
        side_sorted(asc, truncated(depth, s)),
{
}

/// The checksum reads nothing but the top ten levels of each side: two
/// books that agree there get the same canonical bytes, and so the same
/// checksum.
pub proof fn lemma_checksum_top_ten(a: BookView, b: BookView)
    requires
        truncated(10, a.asks) == truncated(10, b.asks),
        truncated(10, a.bids) == truncated(10, b.bids),
    ensures
        checksum_bytes(a) == checksum_bytes(b),
{
}

} // verus!
