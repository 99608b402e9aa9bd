//! The display pipeline.
//!
//! The renderer turns an aggregate tree into ordered, indented, size-banded
//! rows of text.  Siblings may be sorted by size (descending, stable), a
//! global row limit and a per-level child limit truncate the output, and a
//! percentage band of the root's total picks an emphasis tier per row.

use vstd::prelude::*;
use vstd::arithmetic::div_mod::lemma_div_is_ordered;
use vstd::arithmetic::div_mod::lemma_div_multiples_vanish;
use vstd::arithmetic::mul::lemma_mul_inequality;
use vstd::string::StringExecFns;
use vstd::string::StrSliceExecFns;
use crate::display_u64_as_file_size::DisplayFileSize;
use crate::display_u64_as_file_size::file_size_view;
use crate::text::dec_digits;
use crate::text::push_char;
use crate::text::push_decimal;
use crate::text::push_repeat;
use crate::text::repeat_char;
use crate::tree::DirNode;

verus! {

/// How the tree is displayed.  `sort_descending` reorders every sibling list
/// by size; `row_limit` caps the rows printed over the whole render unless
/// `show_all` is set; `child_limit` caps the rows of any single nesting level
/// when `expand_children` is set; without `expand_children` only the
/// top-level directories are shown.
#[derive(Clone, Copy)]
pub struct RenderOptions {
    pub sort_descending: bool,
    pub row_limit: u32,
    pub child_limit: u32,
    pub expand_children: bool,
    pub show_all: bool,
}

/// One output row: its text, the emphasis tier its size band picked, the
/// nesting generation it was printed at, and whether it is the truncation
/// marker rather than a directory row.
pub struct RenderRow {
    pub text: String,
    pub tier: u8,
    pub generation: u32,
    pub marker: bool,
}

/// The mathematical model of a [`RenderRow`].
pub struct RowModel {
    pub text: Seq<char>,
    pub tier: nat,
    pub generation: nat,
    pub marker: bool,
}

impl View for RenderRow {
    type V = RowModel;

    open spec fn view(&self) -> RowModel {
        RowModel {
            text: self.text@,
            tier: self.tier as nat,
            generation: self.generation as nat,
            marker: self.marker,
        }
    }
}

/// The models of a sequence of rows.
pub open spec fn rows_view(rows: Seq<RenderRow>) -> Seq<RowModel> {
    rows.map_values(|r: RenderRow| r@)
}

/// The percentage of the maximum that a size reaches, rounded down; an empty
/// tree (`max == 0`) counts as zero percent.
pub open spec fn band_percent(size: nat, max: nat) -> nat {
    if max == 0 {
        0
    } else {
        size * 100 / max
    }
}

/// The emphasis tier of a percentage: up to five percent stays plain, then
/// one tier per further five points, everything over twenty in the top tier.
pub open spec fn tier_of_percent(p: nat) -> nat {
    if p <= 5 {
        0
    } else if p <= 10 {
        1
    } else if p <= 15 {
        2
    } else if p <= 20 {
        3
    } else {
        4
    }
}

/// The emphasis tier of a size against the maximum.
pub open spec fn band_tier(size: nat, max: nat) -> nat {
    tier_of_percent(band_percent(size, max))
}

/// The emphasis tier for a row of `size` bytes when the largest aggregate is
/// `max` bytes.
pub fn band(size: u64, max: u64) -> (t: u8)
    ensures
        t as nat == band_tier(size as nat, max as nat),
{
    if max == 0 {
        return 0;
    }
    let p: u128 = (size as u128) * 100 / (max as u128);
    if p <= 5 {
        0
    } else if p <= 10 {
        1
    } else if p <= 15 {
        2
    } else if p <= 20 {
        3
    } else {
        4
    }
}

/// Band monotonicity: with the maximum fixed, a larger size never lands in a
/// lower tier; size zero is in the lowest tier; and the maximum itself is in
/// the highest tier whenever the tree is not empty.
pub proof fn lemma_band_monotone(s1: nat, s2: nat, max: nat)
    requires
        s1 <= s2,
    ensures
        band_tier(s1, max) <= band_tier(s2, max),
        band_tier(0, max) == 0,
        max > 0 ==> band_tier(max, max) == 4,
{
    if max > 0 {
        lemma_mul_inequality(s1 as int, s2 as int, 100);
        lemma_div_is_ordered(s1 as int * 100, s2 as int * 100, max as int);
        lemma_div_multiples_vanish(100, max as int);
        assert(band_percent(0, max) == 0) by {
            lemma_div_multiples_vanish(0, max as int);
        }
        assert(band_percent(max, max) == 100);
    }
}

/// `x` comes before `y` in the display order: strictly larger, or equal in
/// size and earlier in the original traversal order.
pub open spec fn precedes(sizes: Seq<u64>, x: usize, y: usize) -> bool {
    sizes[x as int] > sizes[y as int] || (sizes[x as int] == sizes[y as int] && x < y)
}

/// Inserts index `x` into an ordered run of indices, after every index that
/// precedes it.
pub open spec fn insert_ordered(ord: Seq<usize>, sizes: Seq<u64>, x: usize) -> Seq<usize>
    decreases ord.len(),
{
    if ord.len() == 0 {
        seq![x]
    } else if precedes(sizes, ord.last(), x) {
        ord.push(x)
    } else {
        insert_ordered(ord.drop_last(), sizes, x).push(ord.last())
    }
}

/// The display order of the first `k` indices, built by insertion.
pub open spec fn order_upto(sizes: Seq<u64>, k: nat) -> Seq<usize>
    decreases k,
{
    if k == 0 {
        Seq::empty()
    } else {
        insert_ordered(order_upto(sizes, (k - 1) as nat), sizes, (k - 1) as usize)
    }
}

/// The display order of sibling sizes: every original position exactly once,
/// largest size first, positions of equal size in their original order.
pub open spec fn sorted_order(sizes: Seq<u64>) -> Seq<usize> {
    order_upto(sizes, sizes.len())
}

/// The unchanged order: position `i` stays at place `i`.
pub open spec fn identity_order(len: nat) -> Seq<usize> {
    Seq::new(len, |i: int| i as usize)
}

/// Whether `x` precedes `y` in the display order.
fn precedes_exec(sizes: &Vec<u64>, x: usize, y: usize) -> (r: bool)
    requires
        x < sizes@.len(),
        y < sizes@.len(),
    ensures
        r == precedes(sizes@, x, y),
{
    sizes[x] > sizes[y] || (sizes[x] == sizes[y] && x < y)
}

/// Inserts index `x` into the ordered run `ord`.
fn insert_ordered_exec(ord: &mut Vec<usize>, sizes: &Vec<u64>, x: usize)
    requires
        x < sizes@.len(),
        forall|k: int| 0 <= k < old(ord)@.len() ==> old(ord)@[k] < sizes@.len(),
    ensures
        final(ord)@ == insert_ordered(old(ord)@, sizes@, x),
    decreases old(ord)@.len(),
{
    if ord.len() == 0 {
        ord.push(x);
        assert(ord@ =~= seq![x]);
    } else {
        let last = ord[ord.len() - 1];
        if precedes_exec(sizes, last, x) {
            assert(old(ord)@.last() == last);
            ord.push(x);
        } else {
            let popped = ord.pop().unwrap();
            assert(popped == old(ord)@.last());
            assert(ord@ =~= old(ord)@.drop_last());
            insert_ordered_exec(ord, sizes, x);
            ord.push(popped);
        }
    }
}

/// The display order of the given sibling sizes.
pub fn sort_order(sizes: &Vec<u64>) -> (ord: Vec<usize>)
    ensures
        ord@ == sorted_order(sizes@),
{
    let mut ord: Vec<usize> = Vec::new();
    let mut k: usize = 0;
    while k < sizes.len()
        invariant
            k <= sizes@.len(),
            ord@ == order_upto(sizes@, k as nat),
        decreases sizes@.len() - k,
    {
        proof {
            lemma_order_upto_in_range(sizes@, k as nat);
        }
        insert_ordered_exec(&mut ord, sizes, k);
        k = k + 1;
    }
    ord
}

/// Every index an insertion produces comes from the run or is the new one.
proof fn lemma_insert_ordered_elems(ord: Seq<usize>, sizes: Seq<u64>, x: usize)
    ensures
        insert_ordered(ord, sizes, x).len() == ord.len() + 1,
        forall|k: int|
            0 <= k < insert_ordered(ord, sizes, x).len() ==> (
            #[trigger] insert_ordered(ord, sizes, x)[k] == x || ord.contains(
                insert_ordered(ord, sizes, x)[k],
            )),
    decreases ord.len(),
{
    let res = insert_ordered(ord, sizes, x);
    if ord.len() == 0 {
    } else if precedes(sizes, ord.last(), x) {
        assert(forall|k: int| 0 <= k < ord.len() ==> ord.contains(#[trigger] ord[k]));
    } else {
        lemma_insert_ordered_elems(ord.drop_last(), sizes, x);
        let inner = insert_ordered(ord.drop_last(), sizes, x);
        assert forall|k: int| 0 <= k < res.len() implies (#[trigger] res[k] == x || ord.contains(
            res[k],
        )) by {
            if k < inner.len() {
                assert(res[k] == inner[k]);
                if inner[k] != x {
                    let j = choose|j: int|
                        0 <= j < ord.drop_last().len() && ord.drop_last()[j] == inner[k];
                    assert(ord[j] == inner[k]);
                }
            } else {
                assert(res[k] == ord.last());
                assert(ord[ord.len() - 1] == ord.last());
            }
        }
    }
}

/// Inserting a fresh largest index keeps the run ordered: it lands after
/// every index that outweighs it or ties with it, and before the rest.
proof fn lemma_insert_ordered_sorted(ord: Seq<usize>, sizes: Seq<u64>, x: usize)
    requires
        x < sizes.len(),
        forall|k: int| 0 <= k < ord.len() ==> #[trigger] ord[k] < x,
        forall|a: int, b: int| 0 <= a < b < ord.len() ==> precedes(sizes, ord[a], ord[b]),
    ensures
        forall|a: int, b: int|
            0 <= a < b < insert_ordered(ord, sizes, x).len() ==> precedes(
                sizes,
                insert_ordered(ord, sizes, x)[a],
                insert_ordered(ord, sizes, x)[b],
            ),
    decreases ord.len(),
{
    let res = insert_ordered(ord, sizes, x);
    if ord.len() == 0 {
    } else if precedes(sizes, ord.last(), x) {
        assert forall|a: int, b: int| 0 <= a < b < res.len() implies precedes(
            sizes,
            res[a],
            res[b],
        ) by {
            if b < ord.len() {
                assert(precedes(sizes, ord[a], ord[b]));
            } else {
                assert(res[b] == x);
                assert(ord[a] < x);
                if a < ord.len() - 1 {
                    assert(precedes(sizes, ord[a], ord[ord.len() - 1]));
                }
            }
        }
    } else {
        let inner = insert_ordered(ord.drop_last(), sizes, x);
        lemma_insert_ordered_sorted(ord.drop_last(), sizes, x);
        lemma_insert_ordered_elems(ord.drop_last(), sizes, x);
        assert(!precedes(sizes, ord.last(), x));
        assert(ord.last() < x);
        assert(sizes[ord.last() as int] < sizes[x as int]);
        assert forall|a: int, b: int| 0 <= a < b < res.len() implies precedes(
            sizes,
            res[a],
            res[b],
        ) by {
            if b < inner.len() {
                assert(precedes(sizes, inner[a], inner[b]));
            } else {
                assert(res[b] == ord.last());
                assert(res[a] == inner[a]);
                if inner[a] == x {
                    assert(precedes(sizes, x, ord.last()));
                } else {
                    assert(ord.drop_last().contains(inner[a]));
                    let j = choose|j: int|
                        0 <= j < ord.drop_last().len() && ord.drop_last()[j] == inner[a];
                    assert(ord[j] == inner[a]);
                    assert(precedes(sizes, ord[j], ord[ord.len() - 1]));
                }
            }
        }
    }
}

/// All indices an order prefix holds are below `k`.
proof fn lemma_order_upto_in_range(sizes: Seq<u64>, k: nat)
    requires
        k <= sizes.len(),
    ensures
        order_upto(sizes, k).len() == k,
        forall|j: int| 0 <= j < k ==> #[trigger] order_upto(sizes, k)[j] < k,
    decreases k,
{
    if k > 0 {
        lemma_order_upto_in_range(sizes, (k - 1) as nat);
        lemma_insert_ordered_elems(order_upto(sizes, (k - 1) as nat), sizes, (k - 1) as usize);
        let prev = order_upto(sizes, (k - 1) as nat);
        let cur = order_upto(sizes, k);
        assert forall|j: int| 0 <= j < k implies #[trigger] cur[j] < k by {
            if cur[j] != (k - 1) as usize {
                assert(prev.contains(cur[j]));
                let m = choose|m: int| 0 <= m < prev.len() && prev[m] == cur[j];
            }
        }
    }
}

/// An order prefix is pairwise ordered by `precedes`.
proof fn lemma_order_upto_sorted(sizes: Seq<u64>, k: nat)
    requires
        k <= sizes.len(),
        sizes.len() <= usize::MAX,
    ensures
        forall|a: int, b: int|
            0 <= a < b < order_upto(sizes, k).len() ==> precedes(
                sizes,
                order_upto(sizes, k)[a],
                order_upto(sizes, k)[b],
            ),
    decreases k,
{
    if k > 0 {
        lemma_order_upto_sorted(sizes, (k - 1) as nat);
        lemma_order_upto_in_range(sizes, (k - 1) as nat);
        lemma_insert_ordered_sorted(order_upto(sizes, (k - 1) as nat), sizes, (k - 1) as usize);
    }
}

/// Sort stability.  The display order visits every original position exactly
/// once; sizes along it are non-increasing; and positions whose sizes tie
/// keep their original relative order.
pub proof fn lemma_sort_stability(sizes: Seq<u64>)
    requires
        sizes.len() <= usize::MAX,
    ensures
        sorted_order(sizes).len() == sizes.len(),
        forall|k: int| 0 <= k < sizes.len() ==> #[trigger] sorted_order(sizes)[k] < sizes.len(),
        forall|a: int, b: int|
            0 <= a < b < sizes.len() ==> #[trigger] sorted_order(sizes)[a]
                != #[trigger] sorted_order(sizes)[b],
        forall|a: int, b: int|
            0 <= a < b < sizes.len() ==> sizes[#[trigger] sorted_order(sizes)[a] as int]
                >= sizes[#[trigger] sorted_order(sizes)[b] as int],
        forall|a: int, b: int|
            0 <= a < b < sizes.len() && sizes[#[trigger] sorted_order(sizes)[a] as int] == sizes[
                #[trigger] sorted_order(sizes)[b] as int
            ] ==> sorted_order(sizes)[a] < sorted_order(sizes)[b],
{
    lemma_order_upto_in_range(sizes, sizes.len());
    lemma_order_upto_sorted(sizes, sizes.len());
    let ord = sorted_order(sizes);
    assert forall|a: int, b: int|
        0 <= a < b < sizes.len() implies #[trigger] ord[a] != #[trigger] ord[b] by {
        assert(precedes(sizes, ord[a], ord[b]));
    }
    assert forall|a: int, b: int|
        0 <= a < b < sizes.len() implies sizes[#[trigger] ord[a] as int] >= sizes[
        #[trigger] ord[b] as int
    ] by {
        assert(precedes(sizes, ord[a], ord[b]));
    }
    assert forall|a: int, b: int|
        0 <= a < b < sizes.len() && sizes[#[trigger] ord[a] as int] == sizes[
        #[trigger] ord[b] as int
    ] implies ord[a] < ord[b] by {
        assert(precedes(sizes, ord[a], ord[b]));
    }
}

/// The recorded sizes of a sibling list.
pub open spec fn sizes_of(ns: Seq<DirNode>) -> Seq<u64> {
    ns.map_values(|n: DirNode| n.size)
}

/// The order a sibling list is displayed in: sorted when asked for, the
/// traversal order otherwise.
pub open spec fn child_order(opts: RenderOptions, ns: Seq<DirNode>) -> Seq<usize> {
    if opts.sort_descending {
        sorted_order(sizes_of(ns))
    } else {
        identity_order(ns.len())
    }
}

/// The width of the size column; the gap after a size pads to it.
pub const SIZE_COLUMN: usize = 12;

/// The spaces that pad a size of display length `occupied` out to the size
/// column; none when the size is already that wide.
pub open spec fn gap_len(occupied: nat) -> nat {
    if occupied < SIZE_COLUMN {
        (SIZE_COLUMN - occupied) as nat
    } else {
        0
    }
}

/// The dash run that indents generation `gen`: two dashes per generation,
/// capped at what a length can hold.
pub open spec fn dash_count(gen: nat) -> nat {
    if 2 * gen <= usize::MAX {
        2 * gen
    } else {
        usize::MAX as nat
    }
}

/// The words of the truncation marker.
pub open spec fn marker_words() -> Seq<char> {
    "... other child dirs are included"@
}

/// The text of a directory row: the formatted size, padding out to the size
/// column, the count of direct child directories, a tab, the dash indent of
/// the generation, and the directory's name.
pub open spec fn row_text(n: DirNode, gen: nat) -> Seq<char> {
    file_size_view(n.size as nat) + repeat_char(gap_len(file_size_view(n.size as nat).len()), ' ')
        + dec_digits(n.children@.len()) + seq!['\t'] + repeat_char(dash_count(gen), '-') + n.name@
}

/// The model of the row shown for directory node `n` at generation `gen`.
pub open spec fn data_row(n: DirNode, gen: nat, max: nat) -> RowModel {
    RowModel {
        text: row_text(n, gen),
        tier: band_tier(n.size as nat, max),
        generation: gen,
        marker: false,
    }
}

/// The model of the truncation marker row at generation `gen`.
pub open spec fn marker_row(gen: nat) -> RowModel {
    RowModel {
        text: repeat_char(dash_count(gen), '-') + marker_words(),
        tier: 0,
        generation: gen,
        marker: true,
    }
}

/// Whether a limit stops the sibling walk here: never when everything is
/// shown; else when the rows printed so far reach the global row limit, or,
/// under full expansion, when the rows of this level reach the child limit.
pub open spec fn limit_hit(opts: RenderOptions, used: nat, at_level: nat) -> bool {
    !opts.show_all && (used >= opts.row_limit || (opts.expand_children && at_level
        >= opts.child_limit))
}

/// One more printed row, saturating where a counter would overflow.
pub open spec fn inc_used(used: nat) -> nat {
    if used < u64::MAX {
        used + 1
    } else {
        used
    }
}

/// One generation deeper, saturating where a counter would overflow.
pub open spec fn inc_gen(gen: nat) -> nat {
    if gen < u32::MAX {
        gen + 1
    } else {
        gen
    }
}

/// How many nodes a tree holds, itself included.
pub open spec fn node_count(n: DirNode) -> nat
    decreases n,
{
    1 + forest_count(n.children@)
}

/// How many nodes a sibling forest holds in all.
pub open spec fn forest_count(ns: Seq<DirNode>) -> nat
    decreases ns,
{
    if ns.len() == 0 {
        0
    } else {
        node_count(ns[0]) + forest_count(ns.drop_first())
    }
}

/// A tree of the forest never outweighs the whole forest.
proof fn lemma_forest_count_elem(ns: Seq<DirNode>, i: int)
    requires
        0 <= i < ns.len(),
    ensures
        node_count(ns[i]) <= forest_count(ns),
    decreases i,
{
    if i > 0 {
        lemma_forest_count_elem(ns.drop_first(), i - 1);
        assert(ns.drop_first()[i - 1] == ns[i]);
    }
}

/// The rows rendered for the siblings at places `k..` of the display order,
/// together with the global row count afterwards.  A sibling shows one row;
/// under full expansion its children follow at the next generation, sharing
/// the global row counter, before the walk moves to the next sibling.  When a
/// limit stops the walk, one marker row ends the level.  A place outside the
/// sibling list ends the level too; the orders of `child_order` never hold
/// one.
pub open spec fn render_from(
    siblings: Seq<DirNode>,
    ord: Seq<usize>,
    opts: RenderOptions,
    gen: nat,
    used: nat,
    k: nat,
    max: nat,
) -> (Seq<RowModel>, nat)
    decreases forest_count(siblings), ord.len() - k,
        via render_from_dec
{
    if k >= ord.len() {
        (Seq::<RowModel>::empty(), used)
    } else if limit_hit(opts, used, k) {
        (seq![marker_row(gen)], used)
    } else if ord[k as int] >= siblings.len() {
        (Seq::<RowModel>::empty(), used)
    } else {
        let n = siblings[ord[k as int] as int];
        let used1 = inc_used(used);
        let (sub, used2) = if opts.expand_children && n.children@.len() > 0 {
            render_from(
                n.children@,
                child_order(opts, n.children@),
                opts,
                inc_gen(gen),
                used1,
                0,
                max,
            )
        } else {
            (Seq::<RowModel>::empty(), used1)
        };
        let (rest, used3) = render_from(siblings, ord, opts, gen, used2, k + 1, max);
        (seq![data_row(n, gen, max)] + sub + rest, used3)
    }
}

#[via_fn]
proof fn render_from_dec(
    siblings: Seq<DirNode>,
    ord: Seq<usize>,
    opts: RenderOptions,
    gen: nat,
    used: nat,
    k: nat,
    max: nat,
) {
    if k < ord.len() && !limit_hit(opts, used, k) && ord[k as int] < siblings.len() {
        lemma_forest_count_elem(siblings, ord[k as int] as int);
    }
}

/// The rows of the whole render: the root's children at generation one, in
/// display order, banded against the root's aggregate size.
pub open spec fn spec_render(tree: DirNode, opts: RenderOptions) -> Seq<RowModel> {
    render_from(
        tree.children@,
        child_order(opts, tree.children@),
        opts,
        1,
        0,
        0,
        tree.size as nat,
    ).0
}

/// Models of a pushed row sequence split into the old models and the new one.
proof fn lemma_rows_view_push(rows: Seq<RenderRow>, r: RenderRow)
    ensures
        rows_view(rows.push(r)) == rows_view(rows) + seq![r@],
{
    assert(rows_view(rows.push(r)) =~= rows_view(rows) + seq![r@]);
}

/// The display order of a sibling list, as a vector.
fn make_child_order(opts: &RenderOptions, ns: &Vec<DirNode>) -> (ord: Vec<usize>)
    ensures
        ord@ == child_order(*opts, ns@),
{
    if opts.sort_descending {
        let mut sizes: Vec<u64> = Vec::new();
        let mut i: usize = 0;
        while i < ns.len()
            invariant
                i <= ns@.len(),
                sizes@.len() == i,
                forall|j: int| 0 <= j < i ==> sizes@[j] == ns@[j].size,
            decreases ns@.len() - i,
        {
            sizes.push(ns[i].size);
            i = i + 1;
        }
        assert(sizes@ =~= sizes_of(ns@));
        sort_order(&sizes)
    } else {
        let mut ord: Vec<usize> = Vec::new();
        let mut i: usize = 0;
        while i < ns.len()
            invariant
                i <= ns@.len(),
                ord@.len() == i,
                forall|j: int| 0 <= j < i ==> ord@[j] == j,
            decreases ns@.len() - i,
        {
            ord.push(i);
            i = i + 1;
        }
        assert(ord@ =~= identity_order(ns@.len()));
        ord
    }
}

/// Builds the row shown for one directory node.
fn make_data_row(n: &DirNode, gen: u32, max: u64) -> (r: RenderRow)
    ensures
        r@ == data_row(*n, gen as nat, max as nat),
{
    let mut text = n.size.display_as_file_size();
    let occupied = text.as_str().unicode_len();
    let pad = if occupied < SIZE_COLUMN {
        SIZE_COLUMN - occupied
    } else {
        0
    };
    push_repeat(&mut text, pad, ' ');
    push_decimal(&mut text, n.children.len() as u64);
    push_char(&mut text, '\t');
    let g = gen as usize;
    let dash = if g <= usize::MAX / 2 {
        2 * g
    } else {
        usize::MAX
    };
    push_repeat(&mut text, dash, '-');
    text.append(n.name.as_str());
    let tier = band(n.size, max);
    let r = RenderRow { text, tier, generation: gen, marker: false };
    proof {
        assert(r.text@ =~= row_text(*n, gen as nat));
    }
    r
}

/// Builds the truncation marker row for a generation.
fn make_marker_row(gen: u32) -> (r: RenderRow)
    ensures
        r@ == marker_row(gen as nat),
{
    let mut text = String::new();
    let g = gen as usize;
    let dash = if g <= usize::MAX / 2 {
        2 * g
    } else {
        usize::MAX
    };
    push_repeat(&mut text, dash, '-');
    text.append("... other child dirs are included");
    let r = RenderRow { text, tier: 0, generation: gen, marker: true };
    proof {
        assert(r.text@ =~= repeat_char(dash_count(gen as nat), '-') + marker_words());
    }
    r
}

/// Renders the siblings at places `k..` of the display order, appending the
/// rows and returning the new global row count.
fn render_from_exec(
    siblings: &Vec<DirNode>,
    ord: &Vec<usize>,
    opts: &RenderOptions,
    gen: u32,
    used: u64,
    k: usize,
    max: u64,
    out: &mut Vec<RenderRow>,
) -> (used_after: u64)
    ensures
        rows_view(final(out)@) == rows_view(old(out)@) + render_from(
            siblings@,
            ord@,
            *opts,
            gen as nat,
            used as nat,
            k as nat,
            max as nat,
        ).0,
        used_after as nat == render_from(
            siblings@,
            ord@,
            *opts,
            gen as nat,
            used as nat,
            k as nat,
            max as nat,
        ).1,
    decreases forest_count(siblings@), ord@.len() - k,
{
    let ghost whole = render_from(
        siblings@,
        ord@,
        *opts,
        gen as nat,
        used as nat,
        k as nat,
        max as nat,
    );
    if k >= ord.len() {
        assert(rows_view(out@) =~= rows_view(out@) + whole.0);
        return used;
    }
    if !opts.show_all && (used >= opts.row_limit as u64 || (opts.expand_children && k
        >= opts.child_limit as usize)) {
        let row = make_marker_row(gen);
        proof {
            lemma_rows_view_push(out@, row);
        }
        out.push(row);
        assert(rows_view(out@) =~= rows_view(old(out)@) + whole.0);
        return used;
    }
    assert(!limit_hit(*opts, used as nat, k as nat));
    let idx = ord[k];
    if idx >= siblings.len() {
        assert(rows_view(out@) =~= rows_view(out@) + whole.0);
        return used;
    }
    let node = &siblings[idx];
    let row = make_data_row(node, gen, max);
    proof {
        lemma_rows_view_push(out@, row);
    }
    out.push(row);
    let ghost after_row = rows_view(out@);
    let used1 = if used < u64::MAX {
        used + 1
    } else {
        used
    };
    let used2 = if opts.expand_children && node.children.len() > 0 {
        let ord2 = make_child_order(opts, &node.children);
        let gen2 = if gen < u32::MAX {
            gen + 1
        } else {
            gen
        };
        proof {
            lemma_forest_count_elem(siblings@, idx as int);
        }
        render_from_exec(&node.children, &ord2, opts, gen2, used1, 0, max, out)
    } else {
        used1
    };
    let used3 = render_from_exec(siblings, ord, opts, gen, used2, k + 1, max, out);
    proof {
        assert(rows_view(out@) =~= rows_view(old(out)@) + whole.0);
    }
    used3
}

/// How many directory rows a row sequence holds.
pub open spec fn data_count(rows: Seq<RowModel>) -> nat
    decreases rows.len(),
{
    if rows.len() == 0 {
        0
    } else {
        (if rows[0].marker {
            0nat
        } else {
            1nat
        }) + data_count(rows.drop_first())
    }
}

/// How many truncation marker rows a row sequence holds.
pub open spec fn marker_count(rows: Seq<RowModel>) -> nat
    decreases rows.len(),
{
    if rows.len() == 0 {
        0
    } else {
        (if rows[0].marker {
            1nat
        } else {
            0nat
        }) + marker_count(rows.drop_first())
    }
}

/// Without expansion, the walk from place `k` shows one row per remaining
/// sibling until the row limit stops it, and then exactly one marker.
proof fn lemma_render_flat(
    siblings: Seq<DirNode>,
    ord: Seq<usize>,
    opts: RenderOptions,
    k: nat,
    gen: nat,
    max: nat,
)
    requires
        !opts.show_all,
        !opts.expand_children,
        ord.len() == siblings.len(),
        forall|j: int| 0 <= j < ord.len() ==> ord[j] < siblings.len(),
        k <= ord.len(),
    ensures
        ({
            let res = render_from(siblings, ord, opts, gen, k, k, max).0;
            let d = ord.len();
            let l = opts.row_limit as nat;
            &&& data_count(res) == if k >= d {
                0nat
            } else if d <= l {
                (d - k) as nat
            } else if k <= l {
                (l - k) as nat
            } else {
                0nat
            }
            &&& marker_count(res) == if k < d && k >= l {
                1nat
            } else if k < d && d > l {
                1nat
            } else {
                0nat
            }
        }),
    decreases ord.len() - k,
{
    let res = render_from(siblings, ord, opts, gen, k, k, max).0;
    let d = ord.len();
    let l = opts.row_limit as nat;
    if k >= d {
        assert(data_count(res) == 0);
        assert(marker_count(res) == 0);
    } else if limit_hit(opts, k, k) {
        assert(k >= l);
        assert(res == seq![marker_row(gen)]);
        assert(res[0] == marker_row(gen));
        assert(res[0].marker);
        assert(res.drop_first() =~= Seq::<RowModel>::empty());
        assert(data_count(res.drop_first()) == 0);
        assert(marker_count(res.drop_first()) == 0);
        assert(data_count(res) == 0);
        assert(marker_count(res) == 1);
    } else {
        assert(k < l);
        let n = siblings[ord[k as int] as int];
        let rest = render_from(siblings, ord, opts, gen, inc_used(k), k + 1, max).0;
        assert(inc_used(k) == k + 1);
        lemma_render_flat(siblings, ord, opts, k + 1, gen, max);
        assert(res =~= seq![data_row(n, gen, max)] + rest);
        assert(res[0] == data_row(n, gen, max));
        assert(!res[0].marker);
        assert(res.drop_first() =~= rest);
        assert(data_count(res) == 1 + data_count(rest));
        assert(marker_count(res) == marker_count(rest));
    }
}

/// How many directory rows of generation `g` a row sequence holds.
pub open spec fn gen_data_count(rows: Seq<RowModel>, g: nat) -> nat
    decreases rows.len(),
{
    if rows.len() == 0 {
        0
    } else {
        (if !rows[0].marker && rows[0].generation == g {
            1nat
        } else {
            0nat
        }) + gen_data_count(rows.drop_first(), g)
    }
}

/// The generation-`g` row count adds up over concatenation.
proof fn lemma_gen_data_count_add(a: Seq<RowModel>, b: Seq<RowModel>, g: nat)
    ensures
        gen_data_count(a + b, g) == gen_data_count(a, g) + gen_data_count(b, g),
    decreases a.len(),
{
    if a.len() == 0 {
        assert(a + b =~= b);
    } else {
        lemma_gen_data_count_add(a.drop_first(), b, g);
        assert((a + b)[0] == a[0]);
        assert((a + b).drop_first() =~= a.drop_first() + b);
    }
}

/// A sequence whose rows all sit below generation `g` shows no `g` rows.
proof fn lemma_gen_data_count_zero(rows: Seq<RowModel>, g: nat)
    requires
        forall|j: int| 0 <= j < rows.len() ==> (#[trigger] rows[j]).generation > g,
    ensures
        gen_data_count(rows, g) == 0,
    decreases rows.len(),
{
    if rows.len() > 0 {
        assert(rows[0].generation > g);
        assert(forall|j: int|
            0 <= j < rows.drop_first().len() ==> #[trigger] rows.drop_first()[j] == rows[j + 1]);
        lemma_gen_data_count_zero(rows.drop_first(), g);
    }
}

/// The global row counter never moves backwards through a render.
proof fn lemma_render_used_monotone(
    siblings: Seq<DirNode>,
    ord: Seq<usize>,
    opts: RenderOptions,
    gen: nat,
    used: nat,
    k: nat,
    max: nat,
)
    ensures
        render_from(siblings, ord, opts, gen, used, k, max).1 >= used,
    decreases forest_count(siblings), ord.len() - k,
{
    if k >= ord.len() {
    } else if limit_hit(opts, used, k) {
    } else if ord[k as int] >= siblings.len() {
    } else {
        let n = siblings[ord[k as int] as int];
        let used1 = inc_used(used);
        lemma_forest_count_elem(siblings, ord[k as int] as int);
        let used2 = if opts.expand_children && n.children@.len() > 0 {
            lemma_render_used_monotone(
                n.children@,
                child_order(opts, n.children@),
                opts,
                inc_gen(gen),
                used1,
                0,
                max,
            );
            render_from(
                n.children@,
                child_order(opts, n.children@),
                opts,
                inc_gen(gen),
                used1,
                0,
                max,
            ).1
        } else {
            used1
        };
        lemma_render_used_monotone(siblings, ord, opts, gen, used2, k + 1, max);
    }
}

/// Every row a render emits sits at its own generation or deeper.
proof fn lemma_render_gen_floor(
    siblings: Seq<DirNode>,
    ord: Seq<usize>,
    opts: RenderOptions,
    gen: nat,
    used: nat,
    k: nat,
    max: nat,
)
    ensures
        forall|j: int|
            0 <= j < render_from(siblings, ord, opts, gen, used, k, max).0.len() ==> (
            #[trigger] render_from(siblings, ord, opts, gen, used, k, max).0[j]).generation >= gen,
    decreases forest_count(siblings), ord.len() - k,
{
    let res = render_from(siblings, ord, opts, gen, used, k, max).0;
    if k >= ord.len() {
    } else if limit_hit(opts, used, k) {
        assert(res[0] == marker_row(gen));
    } else if ord[k as int] >= siblings.len() {
    } else {
        let n = siblings[ord[k as int] as int];
        let used1 = inc_used(used);
        lemma_forest_count_elem(siblings, ord[k as int] as int);
        let (sub, used2) = if opts.expand_children && n.children@.len() > 0 {
            lemma_render_gen_floor(
                n.children@,
                child_order(opts, n.children@),
                opts,
                inc_gen(gen),
                used1,
                0,
                max,
            );
            render_from(n.children@, child_order(opts, n.children@), opts, inc_gen(gen), used1, 0, max)
        } else {
            (Seq::<RowModel>::empty(), used1)
        };
        let rest = render_from(siblings, ord, opts, gen, used2, k + 1, max).0;
        lemma_render_gen_floor(siblings, ord, opts, gen, used2, k + 1, max);
        assert(inc_gen(gen) >= gen);
        assert forall|j: int| 0 <= j < res.len() implies (#[trigger] res[j]).generation >= gen by {
            if j == 0 {
                assert(res[0] == data_row(n, gen, max));
            } else if j < 1 + sub.len() {
                assert(res[j] == sub[j - 1]);
            } else {
                assert(res[j] == rest[j - 1 - sub.len()]);
            }
        }
    }
}

/// From place `k` with `used` rows already printed, at most
/// `row_limit - used` rows of this walk's own generation appear, and no more
/// than one per remaining place.
proof fn lemma_render_row_cap(
    siblings: Seq<DirNode>,
    ord: Seq<usize>,
    opts: RenderOptions,
    gen: nat,
    used: nat,
    k: nat,
    max: nat,
)
    requires
        !opts.show_all,
        gen < u32::MAX,
        k <= ord.len(),
    ensures
        ({
            let count = gen_data_count(render_from(siblings, ord, opts, gen, used, k, max).0, gen);
            &&& count <= if used < opts.row_limit {
                (opts.row_limit - used) as nat
            } else {
                0nat
            }
            &&& count <= ord.len() - k
        }),
    decreases forest_count(siblings), ord.len() - k,
{
    let res = render_from(siblings, ord, opts, gen, used, k, max).0;
    if k >= ord.len() {
        assert(gen_data_count(res, gen) == 0);
    } else if limit_hit(opts, used, k) {
        assert(res == seq![marker_row(gen)]);
        assert(res[0] == marker_row(gen));
        assert(res[0].marker);
        assert(res.drop_first() =~= Seq::<RowModel>::empty());
        assert(gen_data_count(Seq::<RowModel>::empty(), gen) == 0);
        assert(gen_data_count(res, gen) == 0);
    } else if ord[k as int] >= siblings.len() {
        assert(res =~= Seq::<RowModel>::empty());
        assert(gen_data_count(res, gen) == 0);
    } else {
        assert(used < opts.row_limit);
        let n = siblings[ord[k as int] as int];
        let used1 = inc_used(used);
        assert(used1 == used + 1);
        {
            lemma_forest_count_elem(siblings, ord[k as int] as int);
            let (sub, used2) = if opts.expand_children && n.children@.len() > 0 {
                let deeper = render_from(
                    n.children@,
                    child_order(opts, n.children@),
                    opts,
                    inc_gen(gen),
                    used1,
                    0,
                    max,
                );
                lemma_render_gen_floor(
                    n.children@,
                    child_order(opts, n.children@),
                    opts,
                    inc_gen(gen),
                    used1,
                    0,
                    max,
                );
                lemma_render_used_monotone(
                    n.children@,
                    child_order(opts, n.children@),
                    opts,
                    inc_gen(gen),
                    used1,
                    0,
                    max,
                );
                assert(inc_gen(gen) == gen + 1);
                lemma_gen_data_count_zero(deeper.0, gen);
                deeper
            } else {
                (Seq::<RowModel>::empty(), used1)
            };
            assert(gen_data_count(sub, gen) == 0);
            assert(used2 >= used + 1);
            let rest = render_from(siblings, ord, opts, gen, used2, k + 1, max).0;
            lemma_render_row_cap(siblings, ord, opts, gen, used2, k + 1, max);
            assert(res == seq![data_row(n, gen, max)] + sub + rest);
            lemma_gen_data_count_add(seq![data_row(n, gen, max)] + sub, rest, gen);
            lemma_gen_data_count_add(seq![data_row(n, gen, max)], sub, gen);
            assert((seq![data_row(n, gen, max)] + sub) + rest =~= seq![data_row(n, gen, max)]
                + sub + rest);
            assert(seq![data_row(n, gen, max)].drop_first() =~= Seq::<RowModel>::empty());
            assert(seq![data_row(n, gen, max)][0] == data_row(n, gen, max));
            assert(gen_data_count(Seq::<RowModel>::empty(), gen) == 0);
            assert(gen_data_count(seq![data_row(n, gen, max)], gen) == 1);
        }
    }
}

/// Truncation cap in every mode.  With limits in force, never more than
/// `row_limit` top-level directory rows are shown, expansion or not, and
/// never more than there are top-level directories.
pub proof fn lemma_row_limit_every_mode(tree: DirNode, opts: RenderOptions)
    requires
        !opts.show_all,
        tree.children@.len() <= usize::MAX,
    ensures
        gen_data_count(spec_render(tree, opts), 1) <= opts.row_limit,
        gen_data_count(spec_render(tree, opts), 1) <= tree.children@.len(),
{
    let ns = tree.children@;
    let ord = child_order(opts, ns);
    assert(sizes_of(ns).len() == ns.len());
    if opts.sort_descending {
        lemma_sort_stability(sizes_of(ns));
    }
    lemma_render_row_cap(ns, ord, opts, 1, 0, 0, tree.size as nat);
}

/// Truncation correctness.  Without expansion and with limits in force, at
/// most `row_limit` directory rows are shown — exactly the smaller of the
/// number of top-level directories and the limit — and exactly one truncation
/// marker appears if and only if more top-level directories exist than the
/// limit allows.
pub proof fn lemma_truncation_correctness(tree: DirNode, opts: RenderOptions)
    requires
        !opts.show_all,
        !opts.expand_children,
        tree.children@.len() <= usize::MAX,
    ensures
        data_count(spec_render(tree, opts)) == if tree.children@.len() <= opts.row_limit {
            tree.children@.len()
        } else {
            opts.row_limit as nat
        },
        data_count(spec_render(tree, opts)) <= opts.row_limit,
        marker_count(spec_render(tree, opts)) == if tree.children@.len() > opts.row_limit {
            1nat
        } else {
            0nat
        },
{
    let ns = tree.children@;
    let ord = child_order(opts, ns);
    assert(sizes_of(ns).len() == ns.len());
    if opts.sort_descending {
        lemma_sort_stability(sizes_of(ns));
    } else {
        assert(forall|j: int| 0 <= j < ord.len() ==> ord[j] < ns.len());
    }
    lemma_render_flat(ns, ord, opts, 0, 1, tree.size as nat);
}

/// Renders the aggregate tree: one row per displayed directory, top-level
/// children first at generation one, each row banded against the root's
/// aggregate size, with truncation markers where a limit stopped a level.
pub fn render(tree: &DirNode, opts: &RenderOptions) -> (rows: Vec<RenderRow>)
    ensures
        rows_view(rows@) == spec_render(*tree, *opts),
{
    let ord = make_child_order(opts, &tree.children);
    let mut out: Vec<RenderRow> = Vec::new();
    let _ = render_from_exec(&tree.children, &ord, opts, 1, 0, 0, tree.size, &mut out);
    proof {
        assert(rows_view(Seq::<RenderRow>::empty()) =~= Seq::<RowModel>::empty());
    }
    out
}

} // verus!
