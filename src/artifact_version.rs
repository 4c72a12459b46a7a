use std::cmp::Ordering;
use vstd::prelude::*;

use crate::comparable_version::{ComparableVersion, ver_cmp, parse_lowered, lemma_segment_items};
use crate::item::{is_digit, digits_value};
use crate::segment::SegmentModel;
use crate::text::{chars_of, copy_range, lower_of, string_of};

verus! {

/// The part of a version string that the decomposition is reading.
#[derive(PartialEq, Eq, Structural, Clone, Copy, Debug)]
pub enum Section {
    Major,
    Minor,
    Incremental,
    BuildOrQualifier,
    DottedQualifier,
}

/// The fields that the decomposition of a version string gives.
pub struct Fields {
    pub major: u32,
    pub minor: u32,
    pub incremental: u32,
    pub build: u32,
    pub qualifier: Option<Seq<char>>,
}

/// Where the decomposition stands: the section, where its text starts, and the fields read.
pub struct DecompState {
    pub section: Section,
    pub start: int,
    pub major: u32,
    pub minor: u32,
    pub incremental: u32,
}

pub open spec fn all_digits(s: Seq<char>) -> bool {
    forall|j: int| 0 <= j < s.len() ==> is_digit(#[trigger] s[j])
}

/// The integer that `s` spells: an optional sign, then one or more decimal digits.
pub open spec fn int_of(s: Seq<char>) -> Option<int> {
    if s.len() > 0 && (s[0] == '+' || s[0] == '-') {
        let d = s.drop_first();
        if d.len() > 0 && all_digits(d) {
            Some(if s[0] == '-' { -digits_value(d) } else { digits_value(d) as int })
        } else {
            None
        }
    } else if s.len() > 0 && all_digits(s) {
        Some(digits_value(s) as int)
    } else {
        None
    }
}

/// The integer that `s` spells, where it lies in the range of `i32`.
pub open spec fn i32_of(s: Seq<char>) -> Option<int> {
    match int_of(s) {
        Some(v) => if i32::MIN <= v <= i32::MAX {
            Some(v)
        } else {
            None
        },
        None => None,
    }
}

/// An `i32` value reinterpreted as `u32`.
pub open spec fn as_u32(v: int) -> u32 {
    if v >= 0 {
        v as u32
    } else {
        (v + 0x1_0000_0000) as u32
    }
}

/// The whole string as qualifier, every number zero.
pub open spec fn fallback_fields(s: Seq<char>) -> Fields {
    Fields { major: 0, minor: 0, incremental: 0, build: 0, qualifier: Some(s) }
}

/// The rest of `s` from `st.start` as qualifier, the numbers read so far kept.
pub open spec fn rest_as_qualifier(s: Seq<char>, st: DecompState) -> Fields {
    Fields {
        major: st.major,
        minor: st.minor,
        incremental: st.incremental,
        build: 0,
        qualifier: Some(s.subrange(st.start, s.len() as int)),
    }
}

pub open spec fn starts_with_zero(s: Seq<char>, at: int) -> bool {
    0 <= at < s.len() && s[at] == '0'
}

pub open spec fn with_number(st: DecompState, v: u32) -> DecompState {
    match st.section {
        Section::Major => DecompState { major: v, ..st },
        Section::Minor => DecompState { minor: v, ..st },
        _ => DecompState { incremental: v, ..st },
    }
}

/// Whether character `i` of `s` breaks the shape of a version: a `.` first, a `-` right after a
/// `.`, or two dots in a row before the qualifier.
pub open spec fn malformed_at(s: Seq<char>, i: int, section: Section) -> bool {
    let c = s[i];
    (i == 0 && c == '.') || (i > 0 && c == '-' && s[i - 1] == '.') || (section != Section::BuildOrQualifier
        && section != Section::DottedQualifier && i > 0 && c == '.' && s[i - 1] == '.')
}

/// The fields once the end of `s` is reached in state `st`.
pub open spec fn decompose_end(s: Seq<char>, st: DecompState) -> Fields {
    let sec = s.subrange(st.start, s.len() as int);
    let done = Fields {
        major: st.major,
        minor: st.minor,
        incremental: st.incremental,
        build: 0,
        qualifier: None,
    };
    match st.section {
        Section::BuildOrQualifier => if starts_with_zero(s, st.start) {
            Fields { qualifier: Some(sec), ..done }
        } else {
            match i32_of(sec) {
                Some(v) => Fields { build: as_u32(v), ..done },
                None => Fields { qualifier: Some(sec), ..done },
            }
        },
        Section::DottedQualifier => if all_digits(sec) {
            fallback_fields(s)
        } else {
            Fields { qualifier: Some(sec), ..done }
        },
        _ => if st.section == Section::Major && starts_with_zero(s, st.start) {
            rest_as_qualifier(s, st)
        } else {
            match i32_of(sec) {
                Some(v) => {
                    let n = with_number(st, as_u32(v));
                    Fields { major: n.major, minor: n.minor, incremental: n.incremental, ..done }
                },
                None => fallback_fields(s),
            }
        },
    }
}

/// The decomposition of `s` from character `i` on, in state `st`.
pub open spec fn decompose_from(s: Seq<char>, i: nat, st: DecompState) -> Fields
    decreases s.len() - i,
{
    if i >= s.len() {
        decompose_end(s, st)
    } else if malformed_at(s, i as int, st.section) {
        fallback_fields(s)
    } else {
        let c = s[i as int];
        let numeric = st.section == Section::Major || st.section == Section::Minor
            || st.section == Section::Incremental;
        if numeric && (c == '.' || c == '-') {
            if st.section == Section::Major && starts_with_zero(s, st.start) {
                rest_as_qualifier(s, st)
            } else {
                match i32_of(s.subrange(st.start, i as int)) {
                    Some(v) => {
                        let n = with_number(st, as_u32(v));
                        let next = if c == '-' {
                            Section::BuildOrQualifier
                        } else {
                            match st.section {
                                Section::Major => Section::Minor,
                                Section::Minor => Section::Incremental,
                                _ => Section::DottedQualifier,
                            }
                        };
                        decompose_from(s, i + 1, DecompState { section: next, start: (i + 1) as int, ..n })
                    },
                    None => fallback_fields(s),
                }
            }
        } else if st.section == Section::DottedQualifier && c == '-' {
            fallback_fields(s)
        } else {
            decompose_from(s, i + 1, st)
        }
    }
}

pub open spec fn decompose_init() -> DecompState {
    DecompState { section: Section::Major, start: 0, major: 0, minor: 0, incremental: 0 }
}

/// The fields of the version string `s`.
pub open spec fn decompose(s: Seq<char>) -> Fields {
    decompose_from(s, 0, decompose_init())
}

proof fn lemma_build_or_qualifier_from(s: Seq<char>, i: nat, st: DecompState)
    ensures
        decompose_from(s, i, st).qualifier is Some ==> decompose_from(s, i, st).build == 0,
    decreases s.len() - i,
{
    if i < s.len() && !malformed_at(s, i as int, st.section) {
        let c = s[i as int];
        let numeric = st.section == Section::Major || st.section == Section::Minor
            || st.section == Section::Incremental;
        if numeric && (c == '.' || c == '-') {
            if !(st.section == Section::Major && starts_with_zero(s, st.start)) {
                match i32_of(s.subrange(st.start, i as int)) {
                    Some(v) => {
                        let n = with_number(st, as_u32(v));
                        let next = if c == '-' {
                            Section::BuildOrQualifier
                        } else {
                            match st.section {
                                Section::Major => Section::Minor,
                                Section::Minor => Section::Incremental,
                                _ => Section::DottedQualifier,
                            }
                        };
                        lemma_build_or_qualifier_from(
                            s,
                            i + 1,
                            DecompState { section: next, start: (i + 1) as int, ..n },
                        );
                    },
                    None => {},
                }
            }
        } else if !(st.section == Section::DottedQualifier && c == '-') {
            lemma_build_or_qualifier_from(s, i + 1, st);
        }
    }
}

/// A version string gives a build number or a qualifier, never both: where there is a
/// qualifier the build number is zero.
pub proof fn lemma_build_or_qualifier(s: Seq<char>)
    ensures
        decompose(s).qualifier is Some ==> decompose(s).build == 0,
{
    lemma_build_or_qualifier_from(s, 0, decompose_init());
}

proof fn lemma_digits_value_prefix(s: Seq<char>, k: int)
    requires
        0 <= k <= s.len(),
    ensures
        digits_value(s.take(k)) <= digits_value(s),
    decreases s.len() - k,
{
    if k < s.len() {
        lemma_digits_value_prefix(s, k + 1);
        assert(s.take(k + 1).drop_last() =~= s.take(k));
    } else {
        assert(s.take(k) =~= s);
    }
}

/// Reads the characters of `cs` in `[lo, hi)` as an `i32`, as `str::parse` does.
fn read_i32(cs: &Vec<char>, lo: usize, hi: usize) -> (r: Option<i32>)
    requires
        lo <= hi <= cs@.len(),
    ensures
        match r {
            Some(v) => i32_of(cs@.subrange(lo as int, hi as int)) == Some(v as int),
            None => i32_of(cs@.subrange(lo as int, hi as int)) is None,
        },
{
    let ghost s = cs@.subrange(lo as int, hi as int);
    if lo == hi {
        return None;
    }
    let negative = cs[lo] == '-';
    let signed = negative || cs[lo] == '+';
    let first: usize = if signed { lo + 1 } else { lo };
    let ghost d = cs@.subrange(first as int, hi as int);
    proof {
        if signed {
            assert(s.drop_first() =~= d);
        } else {
            assert(s =~= d);
        }
    }
    if first == hi {
        return None;
    }
    let mut acc: u64 = 0;
    let mut i: usize = first;
    while i < hi
        invariant
            lo <= first <= i <= hi <= cs@.len(),
            d == cs@.subrange(first as int, hi as int),
            s == cs@.subrange(lo as int, hi as int),
            s.len() > 0,
            signed == (s[0] == '+' || s[0] == '-'),
            negative == (s[0] == '-'),
            signed ==> s.drop_first() == d,
            !signed ==> s == d,
            d.len() > 0,
            acc as nat == digits_value(d.take(i - first)),
            acc <= 0x8000_0000,
            forall|j: int| first <= j < i ==> is_digit(#[trigger] cs@[j]),
        decreases hi - i,
    {
        let c = cs[i];
        if !('0' <= c && c <= '9') {
            assert(d[i - first] == cs@[i as int]);
            assert(!all_digits(d));
            return None;
        }
        proof {
            assert(d.take(i - first + 1).drop_last() =~= d.take(i - first));
        }
        acc = acc * 10 + ((c as u32) - ('0' as u32)) as u64;
        i = i + 1;
        if acc > 0x8000_0000 {
            proof {
                lemma_digits_value_prefix(d, i - first);
                assert(digits_value(d) > 0x8000_0000);
            }
            return None;
        }
    }
    assert(d.take(i - first) =~= d);
    assert(all_digits(d));
    if negative {
        Some((0 - (acc as i64)) as i32)
    } else if acc <= 0x7fff_ffff {
        Some(acc as i32)
    } else {
        None
    }
}

fn to_u32(v: i32) -> (r: u32)
    ensures
        r == as_u32(v as int),
{
    if v >= 0 {
        v as u32
    } else {
        ((v as i64) + 0x1_0000_0000i64) as u32
    }
}

/// The fields read so far by the decomposition, in executable form.
struct Decomposed {
    major: u32,
    minor: u32,
    incremental: u32,
    build: u32,
    qualifier: Option<Vec<char>>,
}

impl Decomposed {
    spec fn model(&self) -> Fields {
        Fields {
            major: self.major,
            minor: self.minor,
            incremental: self.incremental,
            build: self.build,
            qualifier: match self.qualifier {
                Some(q) => Some(q@),
                None => None,
            },
        }
    }
}

fn fallback(cs: &Vec<char>) -> (r: Decomposed)
    ensures
        r.model() == fallback_fields(cs@),
{
    let q = copy_range(cs, 0, cs.len());
    assert(cs@.subrange(0, cs@.len() as int) =~= cs@);
    Decomposed { major: 0, minor: 0, incremental: 0, build: 0, qualifier: Some(q) }
}

/// Reads the major, minor and incremental numbers and the build number or qualifier of `cs`.
fn decompose_chars(cs: &Vec<char>) -> (r: Decomposed)
    ensures
        r.model() == decompose(cs@),
{
    let ghost s = cs@;
    let mut section = Section::Major;
    let mut start: usize = 0;
    let mut major: u32 = 0;
    let mut minor: u32 = 0;
    let mut incremental: u32 = 0;
    let mut i: usize = 0;
    while i < cs.len()
        invariant
            s == cs@,
            start <= i <= cs@.len(),
            decompose(s) == decompose_from(s, i as nat, DecompState {
                section,
                start: start as int,
                major,
                minor,
                incremental,
            }),
        decreases cs.len() - i,
    {
        let ghost st = DecompState { section, start: start as int, major, minor, incremental };
        let c = cs[i];
        let malformed = (i == 0 && c == '.') || (i > 0 && c == '-' && cs[i - 1] == '.') || (
        section != Section::BuildOrQualifier && section != Section::DottedQualifier && i > 0 && c
            == '.' && cs[i - 1] == '.');
        if malformed {
            return fallback(cs);
        }
        let numeric = section == Section::Major || section == Section::Minor || section
            == Section::Incremental;
        if numeric && (c == '.' || c == '-') {
            if section == Section::Major && start < cs.len() && cs[start] == '0' {
                let q = copy_range(cs, start, cs.len());
                return Decomposed { major, minor, incremental, build: 0, qualifier: Some(q) };
            }
            match read_i32(cs, start, i) {
                Some(v) => {
                    let n = to_u32(v);
                    match section {
                        Section::Major => major = n,
                        Section::Minor => minor = n,
                        _ => incremental = n,
                    }
                    section = if c == '-' {
                        Section::BuildOrQualifier
                    } else {
                        match section {
                            Section::Major => Section::Minor,
                            Section::Minor => Section::Incremental,
                            _ => Section::DottedQualifier,
                        }
                    };
                    start = i + 1;
                },
                None => {
                    return fallback(cs);
                },
            }
        } else if section == Section::DottedQualifier && c == '-' {
            return fallback(cs);
        }
        i = i + 1;
    }
    let len = cs.len();
    let ghost st = DecompState { section, start: start as int, major, minor, incremental };
    let ghost sec = cs@.subrange(start as int, len as int);
    match section {
        Section::BuildOrQualifier => {
            if start < len && cs[start] == '0' {
                Decomposed { major, minor, incremental, build: 0, qualifier: Some(copy_range(cs, start, len)) }
            } else {
                match read_i32(cs, start, len) {
                    Some(v) => Decomposed { major, minor, incremental, build: to_u32(v), qualifier: None },
                    None => Decomposed { major, minor, incremental, build: 0, qualifier: Some(copy_range(cs, start, len)) },
                }
            }
        },
        Section::DottedQualifier => {
            let mut k: usize = start;
            let mut digits = true;
            while k < len
                invariant
                    start <= k <= len,
                    len == cs@.len(),
                    digits == (forall|j: int| start <= j < k ==> is_digit(#[trigger] cs@[j])),
                decreases len - k,
            {
                if !('0' <= cs[k] && cs[k] <= '9') {
                    digits = false;
                }
                k = k + 1;
            }
            proof {
                if digits {
                    assert forall|j: int| 0 <= j < sec.len() implies is_digit(#[trigger] sec[j]) by {
                        assert(sec[j] == cs@[start + j]);
                    }
                } else {
                    let j = choose|j: int| start <= j < len && !is_digit(#[trigger] cs@[j]);
                    assert(sec[j - start] == cs@[j]);
                }
            }
            if digits {
                fallback(cs)
            } else {
                Decomposed { major, minor, incremental, build: 0, qualifier: Some(copy_range(cs, start, len)) }
            }
        },
        _ => {
            if section == Section::Major && start < len && cs[start] == '0' {
                let q = copy_range(cs, start, len);
                return Decomposed { major, minor, incremental, build: 0, qualifier: Some(q) };
            }
            match read_i32(cs, start, len) {
                Some(v) => {
                    let n = to_u32(v);
                    match section {
                        Section::Major => major = n,
                        Section::Minor => minor = n,
                        _ => incremental = n,
                    }
                    Decomposed { major, minor, incremental, build: 0, qualifier: None }
                },
                None => fallback(cs),
            }
        },
    }
}

pub open spec fn opt_chars(o: Option<String>) -> Option<Seq<char>> {
    match o {
        Some(q) => Some(q@),
        None => None,
    }
}

/// A version string read as `major.minor.incremental` with a build number or a qualifier.
/// Strings of another shape keep their whole text as qualifier. Equality and order are those of
/// the comparable version of the same string, never those of the fields.
#[derive(Debug, Clone)]
pub struct ArtifactVersion {
    major: u32,
    minor: u32,
    incremental: u32,
    build: u32,
    qualifier: Option<String>,
    comparable: ComparableVersion,
}

impl ArtifactVersion {
    /// The decomposed fields of this version.
    pub closed spec fn fields(&self) -> Fields {
        Fields {
            major: self.major,
            minor: self.minor,
            incremental: self.incremental,
            build: self.build,
            qualifier: opt_chars(self.qualifier),
        }
    }

    /// The value by which this version is compared.
    pub closed spec fn version(&self) -> Seq<SegmentModel> {
        self.comparable@
    }

    /// The string this version was parsed from.
    pub closed spec fn original(&self) -> Seq<char> {
        self.comparable.original()
    }

    /// This version is made from its own string: its fields are the decomposition of that
    /// string and it compares as the comparable version of that string.
    pub open spec fn wf(&self) -> bool {
        &&& self.fields() == decompose(self.original())
        &&& self.version() == parse_lowered(lower_of(self.original()))
    }

    /// Parses `s`. This never fails: every string, the empty one included, gives a version.
    /// Whitespace is not trimmed and counts as ordinary text.
    pub fn new(s: &str) -> (r: ArtifactVersion)
        ensures
            r.fields() == decompose(s@),
            r.version() == parse_lowered(lower_of(s@)),
            r.original() == s@,
            r.wf(),
    {
        let cs = chars_of(s);
        let d = decompose_chars(&cs);
        let qualifier = match d.qualifier {
            Some(q) => Some(string_of(&q)),
            None => None,
        };
        ArtifactVersion {
            major: d.major,
            minor: d.minor,
            incremental: d.incremental,
            build: d.build,
            qualifier,
            comparable: ComparableVersion::new(s),
        }
    }

    /// The major version, or 0 if not given.
    pub fn major(&self) -> (r: u32)
        ensures
            r == self.fields().major,
    {
        self.major
    }

    /// The minor version, or 0 if not given.
    pub fn minor(&self) -> (r: u32)
        ensures
            r == self.fields().minor,
    {
        self.minor
    }

    /// The incremental version, or 0 if not given.
    pub fn incremental(&self) -> (r: u32)
        ensures
            r == self.fields().incremental,
    {
        self.incremental
    }

    /// The build number, or 0 if not given.
    pub fn build(&self) -> (r: u32)
        ensures
            r == self.fields().build,
    {
        self.build
    }

    /// The qualifier, or `None` if not given.
    pub fn qualifier(&self) -> (r: &Option<String>)
        ensures
            opt_chars(*r) == self.fields().qualifier,
    {
        &self.qualifier
    }

    /// The string this version was parsed from, as it was given.
    pub fn as_str(&self) -> (r: &str)
        ensures
            r@ == self.original(),
    {
        self.comparable.as_str()
    }

    /// The order of two versions: that of their comparable versions.
    pub fn cmp(&self, other: &ArtifactVersion) -> (r: Ordering)
        ensures
            r == ver_cmp(self.version(), other.version()),
    {
        self.comparable.cmp(&other.comparable)
    }
}

impl PartialEq for ArtifactVersion {
    fn eq(&self, other: &ArtifactVersion) -> (r: bool) {
        self.comparable == other.comparable
    }
}

impl vstd::std_specs::cmp::PartialEqSpecImpl for ArtifactVersion {
    open spec fn obeys_eq_spec() -> bool {
        true
    }

    open spec fn eq_spec(&self, other: &ArtifactVersion) -> bool {
        self.segment_items() == other.segment_items()
    }
}

impl ArtifactVersion {
    /// The items of each segment of the comparable version of this version.
    pub closed spec fn segment_items(&self) -> Seq<Seq<crate::item::ItemModel>> {
        self.comparable.segment_items()
    }
}

impl PartialOrd for ArtifactVersion {
    fn partial_cmp(&self, other: &ArtifactVersion) -> (r: Option<Ordering>) {
        Some(self.cmp(other))
    }
}

impl vstd::std_specs::cmp::PartialOrdSpecImpl for ArtifactVersion {
    open spec fn obeys_partial_cmp_spec() -> bool {
        true
    }

    open spec fn partial_cmp_spec(&self, other: &ArtifactVersion) -> Option<Ordering> {
        Some(ver_cmp(self.version(), other.version()))
    }
}

/// An artifact version is ordered, and compared with `==`, exactly as the comparable version
/// of the same string.
pub proof fn lemma_order_delegates(
    a: &ArtifactVersion,
    b: &ArtifactVersion,
    c: &ComparableVersion,
    d: &ComparableVersion,
)
    requires
        a.wf(),
        b.wf(),
        c.wf(),
        d.wf(),
        a.original() == c.original(),
        b.original() == d.original(),
    ensures
        ver_cmp(a.version(), b.version()) == ver_cmp(c@, d@),
        (a.segment_items() == b.segment_items()) == (c.segment_items() == d.segment_items()),
{
    lemma_segment_items(&a.comparable);
    lemma_segment_items(&b.comparable);
    lemma_segment_items(c);
    lemma_segment_items(d);
}

} // verus!
