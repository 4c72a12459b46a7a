use std::cmp::Ordering;
use vstd::prelude::*;

use crate::item::{Item, ItemModel, is_digit, token_item, token_at, reverse, reverse_of, is_equal};
use crate::segment::{
    Segment, SegmentModel, items_model, strip_null_items, all_null, seg_cmp, seg_btn,
    render_segment, no_trailing_null, lemma_strip_null_items, lemma_all_null_empty,
    lemma_seg_cmp_antisymmetric, lemma_seg_cmp_equal, lemma_seg_btn_not_equal,
};
use crate::text::{join, lowercase, chars_of, string_of, lower_of};

verus! {

/// Where the scan of a version string stands after a prefix of it.
pub struct ScanState {
    /// The segments closed so far, each with its trailing null items stripped.
    pub segs: Seq<Seq<ItemModel>>,
    /// The items of the segment being filled.
    pub cur: Seq<ItemModel>,
    /// Where the token being read starts.
    pub start: int,
    /// Whether the last character read was a digit.
    pub digit: bool,
}

pub open spec fn scan_init() -> ScanState {
    ScanState { segs: Seq::empty(), cur: Seq::empty(), start: 0, digit: false }
}

/// One step of the scan, over character `i` of `s`. A `.` or `-` ends a token (an empty one
/// reads as zero) and a `-` also ends the segment; a change between digits and other
/// characters ends both the token and the segment.
pub open spec fn scan_step(s: Seq<char>, st: ScanState, i: int) -> ScanState {
    let c = s[i];
    if c == '.' || c == '-' {
        let item = if i == st.start {
            ItemModel::Int(0)
        } else {
            token_item(s.subrange(st.start, i), st.digit, false)
        };
        let cur = st.cur.push(item);
        if c == '-' {
            ScanState { segs: st.segs.push(strip_null_items(cur)), cur: Seq::empty(), start: i + 1, digit: st.digit }
        } else {
            ScanState { segs: st.segs, cur: cur, start: i + 1, digit: st.digit }
        }
    } else {
        let will = is_digit(c);
        if i > st.start && will != st.digit {
            let item = token_item(s.subrange(st.start, i), st.digit, will);
            ScanState {
                segs: st.segs.push(strip_null_items(st.cur.push(item))),
                cur: Seq::empty(),
                start: i,
                digit: will,
            }
        } else {
            ScanState { segs: st.segs, cur: st.cur, start: st.start, digit: will }
        }
    }
}

/// The scan state after the first `n` characters of `s`.
pub open spec fn scan(s: Seq<char>, n: nat) -> ScanState
    decreases n,
{
    if n == 0 {
        scan_init()
    } else {
        scan_step(s, scan(s, (n - 1) as nat), n - 1)
    }
}

/// The segments of `s`, before trailing null segments are dropped.
pub open spec fn split_segments(s: Seq<char>) -> Seq<Seq<ItemModel>> {
    let st = scan(s, s.len());
    let cur = if s.len() > st.start {
        st.cur.push(token_item(s.subrange(st.start, s.len() as int), st.digit, false))
    } else {
        st.cur
    };
    st.segs.push(strip_null_items(cur))
}

/// `segs` without its trailing segments whose items are all null.
pub open spec fn strip_null_segments(segs: Seq<Seq<ItemModel>>) -> Seq<Seq<ItemModel>>
    decreases segs.len(),
{
    if segs.len() > 0 && all_null(segs.last()) {
        strip_null_segments(segs.drop_last())
    } else {
        segs
    }
}

/// Segments with the last one marked.
pub open spec fn mark_last(segs: Seq<Seq<ItemModel>>) -> Seq<SegmentModel> {
    Seq::new(segs.len(), |k: int| SegmentModel { items: segs[k], last: k == segs.len() - 1 })
}

/// The value of an already lower-cased version string.
pub open spec fn parse_lowered(s: Seq<char>) -> Seq<SegmentModel> {
    mark_last(strip_null_segments(split_segments(s)))
}

/// The order of two versions from segment `i` on; where one side has run out, each remaining
/// segment of the other is judged against absence.
pub open spec fn ver_cmp_from(a: Seq<SegmentModel>, b: Seq<SegmentModel>, i: nat) -> Ordering
    decreases a.len() + b.len() - i,
{
    if i >= a.len() && i >= b.len() {
        Ordering::Equal
    } else {
        let o = if i < a.len() && i < b.len() {
            seg_cmp(a[i as int], b[i as int])
        } else if i < a.len() {
            seg_btn(a[i as int])
        } else {
            reverse(seg_btn(b[i as int]))
        };
        if o != Ordering::Equal {
            o
        } else {
            ver_cmp_from(a, b, i + 1)
        }
    }
}

pub open spec fn ver_cmp(a: Seq<SegmentModel>, b: Seq<SegmentModel>) -> Ordering {
    ver_cmp_from(a, b, 0)
}

/// The canonical text of a version: each segment's items joined by dots, the segments joined
/// by dashes.
pub open spec fn canonical_of(v: Seq<SegmentModel>) -> Seq<char> {
    join(v.map_values(|g: SegmentModel| render_segment(g.items)), '-')
}

/// A version string parsed for comparison: lower-cased and split into segments of items.
#[derive(Debug, Clone)]
pub struct ComparableVersion {
    orig: String,
    segments: Vec<Segment>,
}

impl View for ComparableVersion {
    type V = Seq<SegmentModel>;

    closed spec fn view(&self) -> Seq<SegmentModel> {
        self.segments@.map_values(|g: Segment| g@)
    }
}

pub open spec fn seg_items(v: Seq<Segment>) -> Seq<Seq<ItemModel>> {
    v.map_values(|g: Segment| g@.items)
}

/// Splits the characters `cs` into segments, each with its trailing null items stripped.
fn split(cs: &Vec<char>) -> (r: Vec<Segment>)
    ensures
        seg_items(r@) == split_segments(cs@),
        forall|k: int| 0 <= k < r@.len() ==> !(#[trigger] r@[k])@.last,
{
    let ghost s = cs@;
    let mut segments: Vec<Segment> = Vec::new();
    let mut cur: Vec<Item> = Vec::new();
    let mut is_digit_run = false;
    let mut start: usize = 0;
    let mut i: usize = 0;
    assert(seg_items(segments@) =~= Seq::<Seq<ItemModel>>::empty());
    assert(items_model(cur@) =~= Seq::<ItemModel>::empty());
    while i < cs.len()
        invariant
            s == cs@,
            i <= cs@.len(),
            start <= i,
            scan(s, i as nat) == (ScanState {
                segs: seg_items(segments@),
                cur: items_model(cur@),
                start: start as int,
                digit: is_digit_run,
            }),
            forall|k: int| 0 <= k < segments@.len() ==> !(#[trigger] segments@[k])@.last,
            forall|j: int| start <= j < i ==> is_digit(#[trigger] cs@[j]) == is_digit_run,
        decreases cs.len() - i,
    {
        let c = cs[i];
        let ghost st = scan(s, i as nat);
        let ghost old_segments = segments@;
        let ghost old_cur = cur@;
        if c == '.' || c == '-' {
            let item = if i == start {
                Item::Int(0)
            } else {
                token_at(cs, start, i, is_digit_run, false)
            };
            cur.push(item);
            start = i + 1;
            if c == '-' {
                let seg = Segment::new(cur);
                cur = Vec::new();
                segments.push(seg);
                proof {
                    assert(items_model(old_cur.push(item)) =~= items_model(old_cur).push(item@));
                    assert(seg_items(segments@) =~= seg_items(old_segments).push(seg@.items));
                }
            } else {
                proof {
                    assert(items_model(cur@) =~= items_model(old_cur).push(item@));
                }
            }
        } else {
            let will_be_digit = '0' <= c && c <= '9';
            if i > start && will_be_digit != is_digit_run {
                let item = token_at(cs, start, i, is_digit_run, will_be_digit);
                cur.push(item);
                start = i;
                let seg = Segment::new(cur);
                cur = Vec::new();
                segments.push(seg);
                proof {
                    assert(items_model(old_cur.push(item)) =~= items_model(old_cur).push(item@));
                    assert(seg_items(segments@) =~= seg_items(old_segments).push(seg@.items));
                }
            }
            is_digit_run = will_be_digit;
        }
        proof {
            assert(items_model(Seq::<Item>::empty()) =~= Seq::<ItemModel>::empty());
        }
        i = i + 1;
    }
    let ghost old_cur = cur@;
    if cs.len() > start {
        let item = token_at(cs, start, cs.len(), is_digit_run, false);
        cur.push(item);
        proof {
            assert(items_model(cur@) =~= items_model(old_cur).push(item@));
        }
    }
    let ghost old_segments = segments@;
    let seg = Segment::new(cur);
    segments.push(seg);
    proof {
        assert(seg_items(segments@) =~= seg_items(old_segments).push(seg@.items));
    }
    segments
}

impl ComparableVersion {
    /// Parses `s` for comparison. This never fails: every string, the empty one included,
    /// gives a version. Whitespace is not trimmed and counts as ordinary text.
    pub fn new(s: &str) -> (r: ComparableVersion)
        ensures
            r@ == parse_lowered(lower_of(s@)),
            r.original() == s@,
            r.wf(),
    {
        let lower = lowercase(s);
        Self::from_lowered(s, lower.as_str())
    }

    /// The version of the string `s`, whose lower-cased text is `lowered`.
    pub fn from_lowered(s: &str, lowered: &str) -> (r: ComparableVersion)
        ensures
            r@ == parse_lowered(lowered@),
            r.original() == s@,
    {
        let cs = chars_of(lowered);
        let mut segments = split(&cs);
        let ghost whole = seg_items(segments@);
        while segments.len() > 0 && segments[segments.len() - 1].is_null()
            invariant
                strip_null_segments(whole) == strip_null_segments(seg_items(segments@)),
                forall|k: int| 0 <= k < segments@.len() ==> !(#[trigger] segments@[k])@.last,
            decreases segments.len(),
        {
            let ghost before = segments@;
            proof {
                assert(seg_items(before).last() == before.last()@.items);
            }
            segments.pop();
            proof {
                assert(seg_items(before).drop_last() =~= seg_items(segments@));
            }
        }
        let ghost kept = segments@;
        proof {
            if kept.len() > 0 {
                assert(seg_items(kept).last() == kept.last()@.items);
            }
            assert(strip_null_segments(seg_items(kept)) == seg_items(kept));
        }
        if segments.len() > 0 {
            let mut last = segments.pop().unwrap();
            last.set_last_segment();
            segments.push(last);
        }
        let r = ComparableVersion { orig: s.to_owned(), segments };
        proof {
            let m = mark_last(seg_items(kept));
            assert forall|k: int| 0 <= k < m.len() implies #[trigger] r@[k] == m[k] by {
                assert(r@[k] == r.segments@[k]@);
                if k < kept.len() - 1 {
                    assert(r.segments@[k] == kept[k]);
                }
            }
            assert(r@ =~= m);
        }
        r
    }

    /// The string this version was parsed from.
    pub closed spec fn original(&self) -> Seq<char> {
        self.orig@
    }

    /// The string this version was parsed from, as it was given.
    pub fn as_str(&self) -> (r: &str)
        ensures
            r@ == self.original(),
    {
        self.orig.as_str()
    }

    /// The order of two versions, segment by segment.
    pub fn cmp(&self, other: &ComparableVersion) -> (r: Ordering)
        ensures
            r == ver_cmp(self@, other@),
    {
        let ghost a = self@;
        let ghost b = other@;
        let mut i: usize = 0;
        while i < self.segments.len() || i < other.segments.len()
            invariant
                a == self@,
                b == other@,
                ver_cmp_from(a, b, 0) == ver_cmp_from(a, b, i as nat),
            decreases self.segments.len() + other.segments.len() - i,
        {
            proof {
                if i < self.segments.len() {
                    assert(a[i as int] == self.segments@[i as int]@);
                }
                if i < other.segments.len() {
                    assert(b[i as int] == other.segments@[i as int]@);
                }
            }
            let order = if i < self.segments.len() && i < other.segments.len() {
                self.segments[i].cmp(&other.segments[i])
            } else if i < self.segments.len() {
                self.segments[i].better_than_nothing()
            } else {
                reverse_of(other.segments[i].better_than_nothing())
            };
            if !is_equal(order) {
                return order;
            }
            i = i + 1;
        }
        Ordering::Equal
    }

    /// The canonical text of this version: lower-cased, aliases expanded, trailing zeros
    /// dropped, items joined by dots and segments by dashes.
    pub fn canonical(&self) -> (r: String)
        ensures
            r@ == canonical_of(self@),
    {
        let ghost parts = self@.map_values(|g: SegmentModel| render_segment(g.items));
        let mut out: Vec<char> = Vec::new();
        let mut k: usize = 0;
        while k < self.segments.len()
            invariant
                k <= self.segments@.len(),
                parts == self@.map_values(|g: SegmentModel| render_segment(g.items)),
                self@ == self.segments@.map_values(|g: Segment| g@),
                out@ == join(parts.take(k as int), '-'),
            decreases self.segments.len() - k,
        {
            let mut text = self.segments[k].render();
            proof {
                assert(parts.take(k + 1).drop_last() =~= parts.take(k as int));
                assert(text@ == parts[k as int]);
            }
            if k > 0 {
                out.push('-');
            }
            out.append(&mut text);
            k = k + 1;
            proof {
                if k == 1 {
                    assert(out@ =~= parts.take(1)[0]);
                }
            }
        }
        assert(parts.take(k as int) =~= parts);
        string_of(&out)
    }
}

impl PartialEq for ComparableVersion {
    fn eq(&self, other: &ComparableVersion) -> (r: bool) {
        if self.segments.len() != other.segments.len() {
            return false;
        }
        let mut k: usize = 0;
        while k < self.segments.len()
            invariant
                k <= self.segments@.len(),
                self.segments@.len() == other.segments@.len(),
                forall|j: int| 0 <= j < k ==> (#[trigger] self.segments@[j])@.items == other.segments@[j]@.items,
            decreases self.segments.len() - k,
        {
            if !(self.segments[k] == other.segments[k]) {
                assert(seg_items(self.segments@)[k as int] != seg_items(other.segments@)[k as int]);
                return false;
            }
            k = k + 1;
        }
        assert(seg_items(self.segments@) =~= seg_items(other.segments@));
        true
    }
}

impl PartialOrd for ComparableVersion {
    fn partial_cmp(&self, other: &ComparableVersion) -> (r: Option<Ordering>) {
        Some(self.cmp(other))
    }
}

impl vstd::std_specs::cmp::PartialOrdSpecImpl for ComparableVersion {
    open spec fn obeys_partial_cmp_spec() -> bool {
        true
    }

    open spec fn partial_cmp_spec(&self, other: &ComparableVersion) -> Option<Ordering> {
        Some(ver_cmp(self@, other@))
    }
}

impl vstd::std_specs::cmp::PartialEqSpecImpl for ComparableVersion {
    open spec fn obeys_eq_spec() -> bool {
        true
    }

    open spec fn eq_spec(&self, other: &ComparableVersion) -> bool {
        self.segment_items() == other.segment_items()
    }
}

impl ComparableVersion {
    /// The items of each segment of this version.
    pub closed spec fn segment_items(&self) -> Seq<Seq<ItemModel>> {
        seg_items(self.segments@)
    }
}

impl ComparableVersion {
    /// This version is the parse of its own string.
    pub open spec fn wf(&self) -> bool {
        self@ == parse_lowered(lower_of(self.original()))
    }
}

/// The items of each segment.
pub open spec fn items_of(v: Seq<SegmentModel>) -> Seq<Seq<ItemModel>> {
    v.map_values(|g: SegmentModel| g.items)
}

/// The shape of every parsed version: no segment ends in a null item, the last segment holds
/// items, and exactly the last segment is marked last.
pub open spec fn wf_model(v: Seq<SegmentModel>) -> bool {
    &&& forall|k: int| 0 <= k < v.len() ==> no_trailing_null(#[trigger] v[k].items)
    &&& forall|k: int| 0 <= k < v.len() ==> (#[trigger] v[k].last) == (k == v.len() - 1)
    &&& v.len() > 0 ==> v.last().items.len() > 0
}

proof fn lemma_scan_segments(s: Seq<char>, n: nat)
    ensures
        forall|k: int|
            0 <= k < scan(s, n).segs.len() ==> no_trailing_null(#[trigger] scan(s, n).segs[k]),
    decreases n,
{
    if n > 0 {
        lemma_scan_segments(s, (n - 1) as nat);
        let st = scan(s, (n - 1) as nat);
        let i = n - 1;
        let c = s[i];
        if c == '.' || c == '-' {
            let item = if i == st.start {
                ItemModel::Int(0)
            } else {
                token_item(s.subrange(st.start, i), st.digit, false)
            };
            lemma_strip_null_items(st.cur.push(item));
        } else if i > st.start && is_digit(c) != st.digit {
            let item = token_item(s.subrange(st.start, i), st.digit, is_digit(c));
            lemma_strip_null_items(st.cur.push(item));
        }
    }
}

proof fn lemma_strip_null_segments(segs: Seq<Seq<ItemModel>>)
    requires
        forall|k: int| 0 <= k < segs.len() ==> no_trailing_null(#[trigger] segs[k]),
    ensures
        forall|k: int|
            0 <= k < strip_null_segments(segs).len() ==> no_trailing_null(
                #[trigger] strip_null_segments(segs)[k],
            ),
        strip_null_segments(segs).len() > 0 ==> strip_null_segments(segs).last().len() > 0,
    decreases segs.len(),
{
    if segs.len() > 0 && all_null(segs.last()) {
        let t = segs.drop_last();
        assert forall|k: int| 0 <= k < t.len() implies no_trailing_null(#[trigger] t[k]) by {
            assert(t[k] == segs[k]);
        }
        lemma_strip_null_segments(t);
    } else if segs.len() > 0 {
        lemma_all_null_empty(segs.last());
    }
}

/// Every parsed version has the shape that `wf_model` describes.
pub proof fn lemma_parse_wf(s: Seq<char>)
    ensures
        wf_model(parse_lowered(s)),
{
    let st = scan(s, s.len());
    lemma_scan_segments(s, s.len());
    let cur = if s.len() > st.start {
        st.cur.push(token_item(s.subrange(st.start, s.len() as int), st.digit, false))
    } else {
        st.cur
    };
    lemma_strip_null_items(cur);
    let segs = split_segments(s);
    assert forall|k: int| 0 <= k < segs.len() implies no_trailing_null(#[trigger] segs[k]) by {
        if k < st.segs.len() {
            assert(segs[k] == st.segs[k]);
        }
    }
    lemma_strip_null_segments(segs);
}

/// Swapping two versions reverses their order.
proof fn lemma_ver_cmp_antisymmetric(a: Seq<SegmentModel>, b: Seq<SegmentModel>, i: nat)
    ensures
        ver_cmp_from(a, b, i) == reverse(ver_cmp_from(b, a, i)),
    decreases a.len() + b.len() - i,
{
    if !(i >= a.len() && i >= b.len()) {
        if i < a.len() && i < b.len() {
            lemma_seg_cmp_antisymmetric(a[i as int], b[i as int], 0);
        }
        lemma_ver_cmp_antisymmetric(a, b, i + 1);
    }
}

proof fn lemma_ver_tail_not_equal(a: Seq<SegmentModel>, b: Seq<SegmentModel>, i: nat)
    requires
        wf_model(a),
        wf_model(b),
        (a.len() <= i < b.len()) || (b.len() <= i < a.len()),
    ensures
        ver_cmp_from(a, b, i) != Ordering::Equal,
    decreases a.len() + b.len() - i,
{
    if i + 1 < a.len() || i + 1 < b.len() {
        lemma_ver_tail_not_equal(a, b, i + 1);
    } else if i < a.len() {
        assert(no_trailing_null(a[i as int].items));
        lemma_seg_btn_not_equal(a[i as int].items, 0);
    } else {
        assert(no_trailing_null(b[i as int].items));
        lemma_seg_btn_not_equal(b[i as int].items, 0);
    }
}

proof fn lemma_ver_cmp_equal_from(a: Seq<SegmentModel>, b: Seq<SegmentModel>, i: nat)
    requires
        wf_model(a),
        wf_model(b),
        i <= a.len(),
        i <= b.len(),
    ensures
        (ver_cmp_from(a, b, i) == Ordering::Equal) == (items_of(a).skip(i as int) == items_of(
            b,
        ).skip(i as int)),
    decreases a.len() + b.len() - i,
{
    let x = items_of(a).skip(i as int);
    let y = items_of(b).skip(i as int);
    if i == a.len() && i == b.len() {
        assert(x =~= y);
    } else if i == a.len() || i == b.len() {
        lemma_ver_tail_not_equal(a, b, i);
        assert(x.len() != y.len());
    } else {
        assert(no_trailing_null(a[i as int].items));
        assert(no_trailing_null(b[i as int].items));
        lemma_seg_cmp_equal(a[i as int], b[i as int]);
        lemma_ver_cmp_equal_from(a, b, i + 1);
        assert(x =~= seq![a[i as int].items] + items_of(a).skip((i + 1) as int));
        assert(y =~= seq![b[i as int].items] + items_of(b).skip((i + 1) as int));
        if x == y {
            assert(x[0] == y[0]);
            assert(items_of(a).skip((i + 1) as int) =~= x.skip(1));
            assert(items_of(b).skip((i + 1) as int) =~= y.skip(1));
        }
    }
}

/// Two well-formed versions compare as equal exactly when they are the same value.
proof fn lemma_ver_cmp_equal(a: Seq<SegmentModel>, b: Seq<SegmentModel>)
    requires
        wf_model(a),
        wf_model(b),
    ensures
        (ver_cmp(a, b) == Ordering::Equal) == (a == b),
        (ver_cmp(a, b) == Ordering::Equal) == (items_of(a) == items_of(b)),
{
    lemma_ver_cmp_equal_from(a, b, 0);
    assert(items_of(a).skip(0) =~= items_of(a));
    assert(items_of(b).skip(0) =~= items_of(b));
    if items_of(a) == items_of(b) {
        assert(a.len() == items_of(a).len());
        assert(a.len() == b.len());
        assert forall|k: int| 0 <= k < a.len() implies a[k] == b[k] by {
            assert(items_of(a)[k] == items_of(b)[k]);
            assert(a[k].items == b[k].items);
            assert(a[k].last == b[k].last);
        }
        assert(a =~= b);
    }
}

/// The items that `==` compares are those of the value.
pub proof fn lemma_segment_items(v: &ComparableVersion)
    ensures
        v.segment_items() == items_of(v@),
{
    assert(v.segment_items() =~= items_of(v@));
}

/// The order of versions: swapping the two sides reverses it, and it says `Equal` exactly
/// when the two versions are the same value, which is exactly when `==` holds between them.
pub proof fn lemma_order_laws(a: &ComparableVersion, b: &ComparableVersion)
    requires
        a.wf(),
        b.wf(),
    ensures
        ver_cmp(a@, b@) == reverse(ver_cmp(b@, a@)),
        (ver_cmp(a@, b@) == Ordering::Equal) == (a@ == b@),
        (ver_cmp(a@, b@) == Ordering::Equal) == (a.segment_items() == b.segment_items()),
{
    lemma_parse_wf(lower_of(a.original()));
    lemma_parse_wf(lower_of(b.original()));
    lemma_ver_cmp_antisymmetric(a@, b@, 0);
    lemma_ver_cmp_equal(a@, b@);
    lemma_segment_items(a);
    lemma_segment_items(b);
}

} // verus!
