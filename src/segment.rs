use std::cmp::Ordering;
use vstd::prelude::*;

use crate::item::{
    Item, ItemModel, item_is_null, item_cmp, item_btn, reverse, reverse_of, render_item, is_equal,
    lemma_item_cmp_antisymmetric, lemma_item_cmp_equal,
};
use crate::text::join;

verus! {

/// The value of a segment: its items, and whether it is the last segment of its version.
pub struct SegmentModel {
    pub items: Seq<ItemModel>,
    pub last: bool,
}

pub open spec fn items_model(v: Seq<Item>) -> Seq<ItemModel> {
    v.map_values(|i: Item| i@)
}

/// `s` without its trailing null items.
pub open spec fn strip_null_items(s: Seq<ItemModel>) -> Seq<ItemModel>
    decreases s.len(),
{
    if s.len() > 0 && item_is_null(s.last()) {
        strip_null_items(s.drop_last())
    } else {
        s
    }
}

/// Every item of `s` counts as absent (so does an empty `s`).
pub open spec fn all_null(s: Seq<ItemModel>) -> bool {
    forall|k: int| 0 <= k < s.len() ==> item_is_null(#[trigger] s[k])
}

/// The order of two segments from item `i` on. Where one side has run out, each remaining item
/// of the other is judged against absence, with `more_segments` the negation of the short
/// side's last-segment flag.
pub open spec fn seg_cmp_from(a: SegmentModel, b: SegmentModel, i: nat) -> Ordering
    decreases a.items.len() + b.items.len() - i,
{
    if i >= a.items.len() && i >= b.items.len() {
        Ordering::Equal
    } else {
        let o = if i < a.items.len() && i < b.items.len() {
            item_cmp(a.items[i as int], b.items[i as int])
        } else if i < a.items.len() {
            item_btn(a.items[i as int], !b.last)
        } else {
            reverse(item_btn(b.items[i as int], !a.last))
        };
        if o != Ordering::Equal {
            o
        } else {
            seg_cmp_from(a, b, i + 1)
        }
    }
}

pub open spec fn seg_cmp(a: SegmentModel, b: SegmentModel) -> Ordering {
    seg_cmp_from(a, b, 0)
}

/// How the items of `s` from `i` on compare to nothing: the first that is not equal to
/// absence decides.
pub open spec fn items_btn_from(s: Seq<ItemModel>, i: nat) -> Ordering
    decreases s.len() - i,
{
    if i >= s.len() {
        Ordering::Equal
    } else if item_btn(s[i as int], false) != Ordering::Equal {
        item_btn(s[i as int], false)
    } else {
        items_btn_from(s, i + 1)
    }
}

pub open spec fn seg_btn(a: SegmentModel) -> Ordering {
    items_btn_from(a.items, 0)
}

/// The text of a segment: its items joined by dots.
pub open spec fn render_segment(s: Seq<ItemModel>) -> Seq<char> {
    join(s.map_values(|i: ItemModel| render_item(i)), '.')
}

/// A run of items of a version, with its trailing null items stripped.
#[derive(Debug, Clone)]
pub struct Segment {
    items: Vec<Item>,
    last_segment: bool,
}

impl View for Segment {
    type V = SegmentModel;

    closed spec fn view(&self) -> SegmentModel {
        SegmentModel { items: items_model(self.items@), last: self.last_segment }
    }
}

impl Segment {
    /// A segment of `items`, without their trailing null items, not marked last.
    pub fn new(items: Vec<Item>) -> (r: Segment)
        ensures
            r@ == (SegmentModel { items: strip_null_items(items_model(items@)), last: false }),
    {
        let mut items = items;
        let ghost whole = items_model(items@);
        while items.len() > 0 && items[items.len() - 1].is_null()
            invariant
                strip_null_items(whole) == strip_null_items(items_model(items@)),
            decreases items.len(),
        {
            let ghost before = items@;
            items.pop();
            proof {
                assert(items_model(before).drop_last() =~= items_model(items@));
            }
        }
        let r = Segment { items, last_segment: false };
        proof {
            let m = items_model(r.items@);
            if m.len() > 0 {
                assert(m.last() == r.items@.last()@);
            }
        }
        r
    }

    /// Whether every item of this segment counts as absent.
    pub fn is_null(&self) -> (r: bool)
        ensures
            r == all_null(self@.items),
    {
        let mut k: usize = 0;
        while k < self.items.len()
            invariant
                k <= self.items@.len(),
                forall|j: int| 0 <= j < k ==> item_is_null(#[trigger] items_model(self.items@)[j]),
            decreases self.items.len() - k,
        {
            if !self.items[k].is_null() {
                assert(!item_is_null(items_model(self.items@)[k as int]));
                return false;
            }
            k = k + 1;
        }
        true
    }

    /// Marks this segment as the last of its version.
    pub fn set_last_segment(&mut self)
        ensures
            final(self)@ == (SegmentModel { items: old(self)@.items, last: true }),
    {
        self.last_segment = true;
    }

    /// Where this segment stands against no segment at all.
    pub fn better_than_nothing(&self) -> (r: Ordering)
        ensures
            r == seg_btn(self@),
    {
        let ghost s = self@.items;
        let mut k: usize = 0;
        while k < self.items.len()
            invariant
                k <= self.items@.len(),
                s == items_model(self.items@),
                items_btn_from(s, 0) == items_btn_from(s, k as nat),
            decreases self.items.len() - k,
        {
            assert(s[k as int] == self.items@[k as int]@);
            let better = self.items[k].better_than_nothing(false);
            if !is_equal(better) {
                return better;
            }
            k = k + 1;
        }
        Ordering::Equal
    }

    /// The order of two segments, item by item.
    pub fn cmp(&self, other: &Segment) -> (r: Ordering)
        ensures
            r == seg_cmp(self@, other@),
    {
        let ghost a = self@;
        let ghost b = other@;
        let mut i: usize = 0;
        while i < self.items.len() || i < other.items.len()
            invariant
                a == self@,
                b == other@,
                i <= a.items.len() || i <= b.items.len(),
                seg_cmp_from(a, b, 0) == seg_cmp_from(a, b, i as nat),
            decreases self.items.len() + other.items.len() - i,
        {
            proof {
                if i < self.items.len() {
                    assert(a.items[i as int] == self.items@[i as int]@);
                }
                if i < other.items.len() {
                    assert(b.items[i as int] == other.items@[i as int]@);
                }
            }
            let order = if i < self.items.len() && i < other.items.len() {
                self.items[i].cmp(&other.items[i])
            } else if i < self.items.len() {
                self.items[i].better_than_nothing(!other.last_segment)
            } else {
                reverse_of(other.items[i].better_than_nothing(!self.last_segment))
            };
            if !is_equal(order) {
                return order;
            }
            i = i + 1;
        }
        Ordering::Equal
    }

    /// The text of this segment: its items joined by dots.
    pub fn render(&self) -> (r: Vec<char>)
        ensures
            r@ == render_segment(self@.items),
    {
        let ghost parts = self@.items.map_values(|i: ItemModel| render_item(i));
        let mut out: Vec<char> = Vec::new();
        let mut k: usize = 0;
        while k < self.items.len()
            invariant
                k <= self.items@.len(),
                parts == self@.items.map_values(|i: ItemModel| render_item(i)),
                self@.items == items_model(self.items@),
                out@ == join(parts.take(k as int), '.'),
            decreases self.items.len() - k,
        {
            let mut text = self.items[k].render();
            proof {
                assert(parts.take(k + 1).drop_last() =~= parts.take(k as int));
                assert(text@ == parts[k as int]);
            }
            if k > 0 {
                out.push('.');
            }
            out.append(&mut text);
            k = k + 1;
            proof {
                if k == 1 {
                    assert(out@ =~= parts.take(1)[0]);
                }
            }
        }
        assert(parts.take(k as int) =~= parts);
        out
    }
}

impl PartialEq for Segment {
    fn eq(&self, other: &Segment) -> (r: bool) {
        if self.items.len() != other.items.len() {
            return false;
        }
        let mut k: usize = 0;
        while k < self.items.len()
            invariant
                k <= self.items@.len(),
                self.items@.len() == other.items@.len(),
                forall|j: int| 0 <= j < k ==> #[trigger] self.items@[j]@ == other.items@[j]@,
            decreases self.items.len() - k,
        {
            if !(self.items[k] == other.items[k]) {
                assert(self@.items[k as int] != other@.items[k as int]);
                return false;
            }
            k = k + 1;
        }
        assert(self@.items =~= other@.items);
        true
    }
}

impl vstd::std_specs::cmp::PartialEqSpecImpl for Segment {
    open spec fn obeys_eq_spec() -> bool {
        true
    }

    open spec fn eq_spec(&self, other: &Segment) -> bool {
        self@.items == other@.items
    }
}

/// The last item of `s`, if any, is not null.
pub open spec fn no_trailing_null(s: Seq<ItemModel>) -> bool {
    s.len() > 0 ==> !item_is_null(s.last())
}

pub proof fn lemma_strip_null_items(s: Seq<ItemModel>)
    ensures
        no_trailing_null(strip_null_items(s)),
    decreases s.len(),
{
    if s.len() > 0 && item_is_null(s.last()) {
        lemma_strip_null_items(s.drop_last());
    }
}

/// Without trailing null items, a segment is null exactly when it is empty.
pub proof fn lemma_all_null_empty(s: Seq<ItemModel>)
    requires
        no_trailing_null(s),
    ensures
        all_null(s) == (s.len() == 0),
{
    if s.len() > 0 {
        assert(!item_is_null(s[s.len() - 1]));
    }
}

/// Swapping two segments reverses their order.
pub proof fn lemma_seg_cmp_antisymmetric(a: SegmentModel, b: SegmentModel, i: nat)
    ensures
        seg_cmp_from(a, b, i) == reverse(seg_cmp_from(b, a, i)),
    decreases a.items.len() + b.items.len() - i,
{
    if !(i >= a.items.len() && i >= b.items.len()) {
        if i < a.items.len() && i < b.items.len() {
            lemma_item_cmp_antisymmetric(a.items[i as int], b.items[i as int]);
        }
        lemma_seg_cmp_antisymmetric(a, b, i + 1);
    }
}

/// Items after the end of the other side, the last of them not null, never all equal
/// absence.
proof fn lemma_tail_not_equal(a: SegmentModel, b: SegmentModel, i: nat)
    requires
        no_trailing_null(a.items),
        no_trailing_null(b.items),
        (a.items.len() <= i < b.items.len()) || (b.items.len() <= i < a.items.len()),
    ensures
        seg_cmp_from(a, b, i) != Ordering::Equal,
    decreases a.items.len() + b.items.len() - i,
{
    if i + 1 < a.items.len() || i + 1 < b.items.len() {
        lemma_tail_not_equal(a, b, i + 1);
    }
}

/// Two segments without trailing null items compare as equal from item `i` on exactly when
/// their items from `i` on are the same.
proof fn lemma_seg_cmp_equal_from(a: SegmentModel, b: SegmentModel, i: nat)
    requires
        no_trailing_null(a.items),
        no_trailing_null(b.items),
        i <= a.items.len(),
        i <= b.items.len(),
    ensures
        (seg_cmp_from(a, b, i) == Ordering::Equal) == (a.items.skip(i as int) == b.items.skip(
            i as int,
        )),
    decreases a.items.len() + b.items.len() - i,
{
    let x = a.items.skip(i as int);
    let y = b.items.skip(i as int);
    if i == a.items.len() && i == b.items.len() {
        assert(x =~= y);
    } else if i == a.items.len() || i == b.items.len() {
        lemma_tail_not_equal(a, b, i);
        assert(x.len() != y.len());
    } else {
        lemma_item_cmp_equal(a.items[i as int], b.items[i as int]);
        lemma_seg_cmp_equal_from(a, b, i + 1);
        assert(x =~= seq![a.items[i as int]] + a.items.skip((i + 1) as int));
        assert(y =~= seq![b.items[i as int]] + b.items.skip((i + 1) as int));
        if x == y {
            assert(x[0] == y[0]);
            assert(a.items.skip((i + 1) as int) =~= x.skip(1));
            assert(b.items.skip((i + 1) as int) =~= y.skip(1));
        }
    }
}

/// Two segments without trailing null items compare as equal exactly when they hold the same
/// items.
pub proof fn lemma_seg_cmp_equal(a: SegmentModel, b: SegmentModel)
    requires
        no_trailing_null(a.items),
        no_trailing_null(b.items),
    ensures
        (seg_cmp(a, b) == Ordering::Equal) == (a.items == b.items),
{
    lemma_seg_cmp_equal_from(a, b, 0);
    assert(a.items.skip(0) =~= a.items);
    assert(b.items.skip(0) =~= b.items);
}

/// A segment with items, the last of them not null, is never equal to absence.
pub proof fn lemma_seg_btn_not_equal(s: Seq<ItemModel>, i: nat)
    requires
        no_trailing_null(s),
        i < s.len(),
    ensures
        items_btn_from(s, i) != Ordering::Equal,
    decreases s.len() - i,
{
    if i + 1 < s.len() {
        lemma_seg_btn_not_equal(s, i + 1);
    }
}

} // verus!
