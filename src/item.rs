use std::cmp::Ordering;
use vstd::prelude::*;

use crate::text::{chars_of, copy_range, range_is, chars_are};

verus! {

/// The mathematical value of one token of a version.
pub enum ItemModel {
    /// A number of at most nine digits.
    Int(nat),
    /// A number of more than nine digits, as its decimal digits without leading zeros.
    Big(Seq<char>),
    /// A lower-cased word with its aliases resolved.
    Str(Seq<char>),
}

/// A single token of a version, such as `1` or `beta`.
#[derive(Debug, Clone)]
pub enum Item {
    Int(u32),
    BigInt(Vec<char>),
    Str(Vec<char>),
}

impl View for Item {
    type V = ItemModel;

    open spec fn view(&self) -> ItemModel {
        match self {
            Item::Int(n) => ItemModel::Int(*n as nat),
            Item::BigInt(d) => ItemModel::Big(d@),
            Item::Str(s) => ItemModel::Str(s@),
        }
    }
}

/// Most digits that a bounded integer item holds.
pub const MAX_INT_DIGITS: usize = 9;

pub open spec fn is_digit(c: char) -> bool {
    '0' <= c && c <= '9'
}

pub open spec fn digit_value(c: char) -> nat {
    ((c as u32) - ('0' as u32)) as nat
}

/// The number that a run of decimal digits denotes.
pub open spec fn digits_value(s: Seq<char>) -> nat
    decreases s.len(),
{
    if s.len() == 0 {
        0
    } else {
        digits_value(s.drop_last()) * 10 + digit_value(s.last())
    }
}

pub open spec fn pow10(n: nat) -> nat
    decreases n,
{
    if n == 0 {
        1
    } else {
        10 * pow10((n - 1) as nat)
    }
}

/// `s` without its leading `0` characters.
pub open spec fn strip_zeros(s: Seq<char>) -> Seq<char>
    decreases s.len(),
{
    if s.len() > 0 && s[0] == '0' {
        strip_zeros(s.drop_first())
    } else {
        s
    }
}

pub open spec fn word_alpha() -> Seq<char> { seq!['a', 'l', 'p', 'h', 'a'] }
pub open spec fn word_beta() -> Seq<char> { seq!['b', 'e', 't', 'a'] }
pub open spec fn word_milestone() -> Seq<char> { seq!['m', 'i', 'l', 'e', 's', 't', 'o', 'n', 'e'] }
pub open spec fn word_rc() -> Seq<char> { seq!['r', 'c'] }
pub open spec fn word_snapshot() -> Seq<char> { seq!['s', 'n', 'a', 'p', 's', 'h', 'o', 't'] }
pub open spec fn word_sp() -> Seq<char> { seq!['s', 'p'] }

/// The alias table: the word that `s` stands for, where `followed_by_digit` tells whether the
/// next token starts with a digit.
pub open spec fn alias(s: Seq<char>, followed_by_digit: bool) -> Seq<char> {
    if followed_by_digit && s == seq!['a'] {
        word_alpha()
    } else if followed_by_digit && s == seq!['b'] {
        word_beta()
    } else if followed_by_digit && s == seq!['m'] {
        word_milestone()
    } else if s == seq!['g', 'a'] || s == seq!['f', 'i', 'n', 'a', 'l'] || s == seq![
        'r',
        'e',
        'l',
        'e',
        'a',
        's',
        'e',
    ] {
        Seq::empty()
    } else if s == seq!['c', 'r'] {
        word_rc()
    } else {
        s
    }
}

/// The item that a word token gives.
pub open spec fn word_item(s: Seq<char>, followed_by_digit: bool) -> ItemModel {
    ItemModel::Str(alias(strip_zeros(s), followed_by_digit))
}

/// The item that a digit token gives: bounded up to nine significant digits, big beyond.
pub open spec fn number_item(s: Seq<char>) -> ItemModel {
    let t = strip_zeros(s);
    if t.len() <= MAX_INT_DIGITS {
        ItemModel::Int(digits_value(t))
    } else {
        ItemModel::Big(t)
    }
}

pub open spec fn token_item(s: Seq<char>, digits: bool, followed_by_digit: bool) -> ItemModel {
    if digits {
        number_item(s)
    } else {
        word_item(s, followed_by_digit)
    }
}

/// An item that counts as absent: zero or the empty word.
pub open spec fn item_is_null(i: ItemModel) -> bool {
    match i {
        ItemModel::Int(n) => n == 0,
        ItemModel::Big(_) => false,
        ItemModel::Str(s) => s.len() == 0,
    }
}

/// Where a word stands among the qualifiers; 7 for any word outside the table.
pub open spec fn rank(s: Seq<char>) -> int {
    if s == word_alpha() {
        0
    } else if s == word_beta() {
        1
    } else if s == word_milestone() {
        2
    } else if s == word_rc() {
        3
    } else if s == word_snapshot() {
        4
    } else if s.len() == 0 {
        5
    } else if s == word_sp() {
        6
    } else {
        7
    }
}

pub open spec fn reverse(o: Ordering) -> Ordering {
    match o {
        Ordering::Less => Ordering::Greater,
        Ordering::Equal => Ordering::Equal,
        Ordering::Greater => Ordering::Less,
    }
}

pub open spec fn cmp_int(a: int, b: int) -> Ordering {
    if a < b {
        Ordering::Less
    } else if a == b {
        Ordering::Equal
    } else {
        Ordering::Greater
    }
}

/// Lexicographic order of two character sequences, characters ordered by code point.
pub open spec fn lex_cmp(a: Seq<char>, b: Seq<char>) -> Ordering
    decreases a.len(),
{
    if a.len() == 0 {
        if b.len() == 0 {
            Ordering::Equal
        } else {
            Ordering::Less
        }
    } else if b.len() == 0 {
        Ordering::Greater
    } else if a[0] < b[0] {
        Ordering::Less
    } else if a[0] > b[0] {
        Ordering::Greater
    } else {
        lex_cmp(a.drop_first(), b.drop_first())
    }
}

/// Order of two digit runs without leading zeros: the longer is larger, and of two of one
/// length the first differing digit decides.
pub open spec fn digits_cmp(a: Seq<char>, b: Seq<char>) -> Ordering {
    if a.len() != b.len() {
        cmp_int(a.len() as int, b.len() as int)
    } else {
        lex_cmp(a, b)
    }
}

/// The order of two present items.
pub open spec fn item_cmp(a: ItemModel, b: ItemModel) -> Ordering {
    match (a, b) {
        (ItemModel::Int(x), ItemModel::Int(y)) => cmp_int(x as int, y as int),
        (ItemModel::Big(x), ItemModel::Big(y)) => digits_cmp(x, y),
        (ItemModel::Str(s), ItemModel::Str(t)) => {
            if rank(s) == 7 && rank(t) == 7 {
                lex_cmp(s, t)
            } else {
                cmp_int(rank(s), rank(t))
            }
        },
        (ItemModel::Int(_), ItemModel::Big(_)) => Ordering::Less,
        (ItemModel::Str(_), _) => Ordering::Less,
        _ => Ordering::Greater,
    }
}

/// How a present item compares to an absent one; `more_segments` tells whether the other side
/// has more segments after the one being compared.
pub open spec fn item_btn(i: ItemModel, more_segments: bool) -> Ordering {
    match i {
        ItemModel::Int(n) => if more_segments || n != 0 {
            Ordering::Greater
        } else {
            Ordering::Equal
        },
        ItemModel::Big(_) => Ordering::Greater,
        ItemModel::Str(s) => if more_segments || rank(s) < 5 {
            Ordering::Less
        } else if s.len() == 0 {
            Ordering::Equal
        } else {
            Ordering::Greater
        },
    }
}

pub fn reverse_of(o: Ordering) -> (r: Ordering)
    ensures
        r == reverse(o),
{
    match o {
        Ordering::Less => Ordering::Greater,
        Ordering::Equal => Ordering::Equal,
        Ordering::Greater => Ordering::Less,
    }
}

/// Whether `o` is `Equal`.
pub fn is_equal(o: Ordering) -> (r: bool)
    ensures
        r == (o == Ordering::Equal),
{
    match o {
        Ordering::Equal => true,
        _ => false,
    }
}

fn cmp_u32(a: u32, b: u32) -> (r: Ordering)
    ensures
        r == cmp_int(a as int, b as int),
{
    if a < b {
        Ordering::Less
    } else if a == b {
        Ordering::Equal
    } else {
        Ordering::Greater
    }
}

fn cmp_usize(a: usize, b: usize) -> (r: Ordering)
    ensures
        r == cmp_int(a as int, b as int),
{
    if a < b {
        Ordering::Less
    } else if a == b {
        Ordering::Equal
    } else {
        Ordering::Greater
    }
}

/// Compares two character sequences lexicographically.
pub fn lex_compare(a: &Vec<char>, b: &Vec<char>) -> (r: Ordering)
    ensures
        r == lex_cmp(a@, b@),
{
    let mut i: usize = 0;
    assert(a@.skip(0) =~= a@);
    assert(b@.skip(0) =~= b@);
    while i < a.len() && i < b.len()
        invariant
            i <= a@.len(),
            i <= b@.len(),
            lex_cmp(a@, b@) == lex_cmp(a@.skip(i as int), b@.skip(i as int)),
        decreases a.len() - i,
    {
        if a[i] < b[i] {
            return Ordering::Less;
        } else if a[i] > b[i] {
            return Ordering::Greater;
        }
        assert(a@.skip(i as int).drop_first() =~= a@.skip(i + 1));
        assert(b@.skip(i as int).drop_first() =~= b@.skip(i + 1));
        i = i + 1;
    }
    if i < a.len() {
        Ordering::Greater
    } else if i < b.len() {
        Ordering::Less
    } else {
        Ordering::Equal
    }
}

proof fn lemma_strip_zeros_range(s: Seq<char>, lo: int, p: int, hi: int)
    requires
        0 <= lo <= p <= hi <= s.len(),
        forall|j: int| lo <= j < p ==> s[j] == '0',
        p == hi || s[p] != '0',
    ensures
        strip_zeros(s.subrange(lo, hi)) == s.subrange(p, hi),
    decreases p - lo,
{
    if lo < p {
        assert(s.subrange(lo, hi).drop_first() =~= s.subrange(lo + 1, hi));
        lemma_strip_zeros_range(s, lo + 1, p, hi);
    }
}

proof fn lemma_digits_value_bound(s: Seq<char>)
    requires
        forall|j: int| 0 <= j < s.len() ==> is_digit(#[trigger] s[j]),
    ensures
        digits_value(s) < pow10(s.len()),
    decreases s.len(),
{
    if s.len() > 0 {
        let t = s.drop_last();
        assert forall|j: int| 0 <= j < t.len() implies is_digit(#[trigger] t[j]) by {
            assert(t[j] == s[j]);
        }
        lemma_digits_value_bound(t);
        let a = digits_value(t);
        let p = pow10(t.len());
        let d = digit_value(s.last());
        assert(is_digit(s[s.len() - 1]));
        assert(d <= 9);
        assert(a * 10 + d < 10 * p) by (nonlinear_arith)
            requires
                a < p,
                d <= 9,
        ;
    }
}

proof fn lemma_pow10_nine()
    ensures
        pow10(9) == 1_000_000_000,
{
    reveal_with_fuel(pow10, 10);
}

/// Reads the digits of `cs` in `[lo, hi)`, at most nine of them, as a number.
fn read_u32(cs: &Vec<char>, lo: usize, hi: usize) -> (r: u32)
    requires
        lo <= hi <= cs@.len(),
        hi - lo <= MAX_INT_DIGITS,
        forall|j: int| lo <= j < hi ==> is_digit(#[trigger] cs@[j]),
    ensures
        r as nat == digits_value(cs@.subrange(lo as int, hi as int)),
{
    let mut acc: u32 = 0;
    let mut i: usize = lo;
    proof {
        lemma_pow10_nine();
    }
    while i < hi
        invariant
            lo <= i <= hi <= cs@.len(),
            hi - lo <= MAX_INT_DIGITS,
            forall|j: int| lo <= j < hi ==> is_digit(#[trigger] cs@[j]),
            acc as nat == digits_value(cs@.subrange(lo as int, i as int)),
            pow10(9) == 1_000_000_000,
        decreases hi - i,
    {
        let ghost next = cs@.subrange(lo as int, i + 1);
        proof {
            assert(next.drop_last() =~= cs@.subrange(lo as int, i as int));
            assert forall|j: int| 0 <= j < next.len() implies is_digit(#[trigger] next[j]) by {
                assert(next[j] == cs@[lo + j]);
            }
            lemma_digits_value_bound(next);
            lemma_pow10_monotone(next.len(), 9);
            assert(is_digit(cs@[i as int]));
        }
        let d = (cs[i] as u32) - ('0' as u32);
        acc = acc * 10 + d;
        i = i + 1;
    }
    acc
}

proof fn lemma_pow10_monotone(a: nat, b: nat)
    requires
        a <= b,
    ensures
        pow10(a) <= pow10(b),
    decreases b,
{
    if a < b {
        lemma_pow10_monotone(a, (b - 1) as nat);
        assert(pow10(b) == 10 * pow10((b - 1) as nat));
    }
}

/// The first index in `[lo, hi)` of `cs` that is not `0`, or `hi`.
fn skip_zeros(cs: &Vec<char>, lo: usize, hi: usize) -> (p: usize)
    requires
        lo <= hi <= cs@.len(),
    ensures
        lo <= p <= hi,
        strip_zeros(cs@.subrange(lo as int, hi as int)) == cs@.subrange(p as int, hi as int),
{
    let mut p: usize = lo;
    while p < hi && cs[p] == '0'
        invariant
            lo <= p <= hi <= cs@.len(),
            forall|j: int| lo <= j < p ==> cs@[j] == '0',
        decreases hi - p,
    {
        p = p + 1;
    }
    proof {
        lemma_strip_zeros_range(cs@, lo as int, p as int, hi as int);
    }
    p
}

/// The word item of the characters of `cs` in `[lo, hi)`.
fn word_at(cs: &Vec<char>, lo: usize, hi: usize, followed_by_digit: bool) -> (r: Item)
    requires
        lo <= hi <= cs@.len(),
    ensures
        r@ == word_item(cs@.subrange(lo as int, hi as int), followed_by_digit),
{
    let p = skip_zeros(cs, lo, hi);
    let a: &[char] = &['a'];
    let b: &[char] = &['b'];
    let m: &[char] = &['m'];
    let ga: &[char] = &['g', 'a'];
    let fin: &[char] = &['f', 'i', 'n', 'a', 'l'];
    let rel: &[char] = &['r', 'e', 'l', 'e', 'a', 's', 'e'];
    let cr: &[char] = &['c', 'r'];
    assert(a@ == seq!['a'] && b@ == seq!['b'] && m@ == seq!['m']);
    assert(ga@ == seq!['g', 'a'] && fin@ == seq!['f', 'i', 'n', 'a', 'l']);
    assert(rel@ == seq!['r', 'e', 'l', 'e', 'a', 's', 'e'] && cr@ == seq!['c', 'r']);
    if followed_by_digit && range_is(cs, p, hi, a) {
        let v: Vec<char> = vec!['a', 'l', 'p', 'h', 'a'];
        Item::Str(v)
    } else if followed_by_digit && range_is(cs, p, hi, b) {
        let v: Vec<char> = vec!['b', 'e', 't', 'a'];
        Item::Str(v)
    } else if followed_by_digit && range_is(cs, p, hi, m) {
        let v: Vec<char> = vec!['m', 'i', 'l', 'e', 's', 't', 'o', 'n', 'e'];
        Item::Str(v)
    } else if range_is(cs, p, hi, ga) || range_is(cs, p, hi, fin) || range_is(cs, p, hi, rel) {
        Item::Str(Vec::new())
    } else if range_is(cs, p, hi, cr) {
        let v: Vec<char> = vec!['r', 'c'];
        Item::Str(v)
    } else {
        Item::Str(copy_range(cs, p, hi))
    }
}

/// The item of the token of `cs` in `[lo, hi)`, a run of digits where `digits` holds and a
/// word otherwise.
pub(crate) fn token_at(
    cs: &Vec<char>,
    lo: usize,
    hi: usize,
    digits: bool,
    followed_by_digit: bool,
) -> (r: Item)
    requires
        lo <= hi <= cs@.len(),
        digits ==> forall|j: int| lo <= j < hi ==> is_digit(#[trigger] cs@[j]),
    ensures
        r@ == token_item(cs@.subrange(lo as int, hi as int), digits, followed_by_digit),
{
    if digits {
        let p = skip_zeros(cs, lo, hi);
        if hi - p <= MAX_INT_DIGITS {
            let n = read_u32(cs, p, hi);
            Item::Int(n)
        } else {
            Item::BigInt(copy_range(cs, p, hi))
        }
    } else {
        word_at(cs, lo, hi, followed_by_digit)
    }
}

/// Where a word stands among the qualifiers.
fn rank_of(s: &Vec<char>) -> (r: u8)
    ensures
        r as int == rank(s@),
{
    let alpha: &[char] = &['a', 'l', 'p', 'h', 'a'];
    let beta: &[char] = &['b', 'e', 't', 'a'];
    let milestone: &[char] = &['m', 'i', 'l', 'e', 's', 't', 'o', 'n', 'e'];
    let rc: &[char] = &['r', 'c'];
    let snapshot: &[char] = &['s', 'n', 'a', 'p', 's', 'h', 'o', 't'];
    let sp: &[char] = &['s', 'p'];
    assert(alpha@ == word_alpha() && beta@ == word_beta() && milestone@ == word_milestone());
    assert(rc@ == word_rc() && snapshot@ == word_snapshot() && sp@ == word_sp());
    if chars_are(s, alpha) {
        0
    } else if chars_are(s, beta) {
        1
    } else if chars_are(s, milestone) {
        2
    } else if chars_are(s, rc) {
        3
    } else if chars_are(s, snapshot) {
        4
    } else if s.len() == 0 {
        5
    } else if chars_are(s, sp) {
        6
    } else {
        7
    }
}

impl Item {
    /// The word item of `s`: leading zeros stripped, then the alias table applied, where
    /// `followed_by_digit` tells whether the next token starts with a digit.
    pub fn from_str(s: &str, followed_by_digit: bool) -> (r: Item)
        ensures
            r@ == word_item(s@, followed_by_digit),
    {
        let cs = chars_of(s);
        let r = word_at(&cs, 0, cs.len(), followed_by_digit);
        assert(cs@.subrange(0, cs@.len() as int) =~= s@);
        r
    }

    /// Whether this item counts as absent: zero or the empty word.
    pub fn is_null(&self) -> (r: bool)
        ensures
            r == item_is_null(self@),
    {
        match self {
            Item::Int(n) => *n == 0,
            Item::BigInt(_) => false,
            Item::Str(s) => s.len() == 0,
        }
    }

    /// Where this item stands against no item at all; `more_segments` tells whether the other
    /// side has more segments after the one holding this item.
    pub fn better_than_nothing(&self, more_segments: bool) -> (r: Ordering)
        ensures
            r == item_btn(self@, more_segments),
    {
        match self {
            Item::Int(n) => {
                if more_segments || *n != 0 {
                    Ordering::Greater
                } else {
                    Ordering::Equal
                }
            },
            Item::BigInt(_) => Ordering::Greater,
            Item::Str(s) => {
                if more_segments || rank_of(s) < 5 {
                    Ordering::Less
                } else if s.len() == 0 {
                    Ordering::Equal
                } else {
                    Ordering::Greater
                }
            },
        }
    }

    /// The order of two items: numbers by value, words by qualifier rank and then
    /// lexicographically, any word before any number, and bounded before big numbers.
    pub fn cmp(&self, other: &Item) -> (r: Ordering)
        ensures
            r == item_cmp(self@, other@),
    {
        match (self, other) {
            (Item::Int(x), Item::Int(y)) => cmp_u32(*x, *y),
            (Item::BigInt(x), Item::BigInt(y)) => {
                if x.len() != y.len() {
                    cmp_usize(x.len(), y.len())
                } else {
                    lex_compare(x, y)
                }
            },
            (Item::Str(s), Item::Str(t)) => {
                let a = rank_of(s);
                let b = rank_of(t);
                if a == 7 && b == 7 {
                    lex_compare(s, t)
                } else if a < b {
                    Ordering::Less
                } else if a == b {
                    Ordering::Equal
                } else {
                    Ordering::Greater
                }
            },
            (Item::Int(_), Item::BigInt(_)) => Ordering::Less,
            (Item::Str(_), _) => Ordering::Less,
            _ => Ordering::Greater,
        }
    }

    /// The text of this item: a number in decimal, a word as it stands.
    pub fn render(&self) -> (r: Vec<char>)
        ensures
            r@ == render_item(self@),
    {
        match self {
            Item::Int(n) => decimal(*n),
            Item::BigInt(d) => copy_range(d, 0, d.len()),
            Item::Str(s) => copy_range(s, 0, s.len()),
        }
    }
}

pub open spec fn digit_char(n: nat) -> char {
    (n + ('0' as u32)) as char
}

/// The decimal text of `n`, without leading zeros.
pub open spec fn decimal_of(n: nat) -> Seq<char>
    decreases n,
{
    if n < 10 {
        seq![digit_char(n)]
    } else {
        decimal_of(n / 10).push(digit_char(n % 10))
    }
}

pub open spec fn render_item(i: ItemModel) -> Seq<char> {
    match i {
        ItemModel::Int(n) => decimal_of(n),
        ItemModel::Big(d) => d,
        ItemModel::Str(s) => s,
    }
}

fn decimal(n: u32) -> (r: Vec<char>)
    ensures
        r@ == decimal_of(n as nat),
    decreases n,
{
    let c = ((n % 10) as u8 + 48u8) as char;
    if n < 10 {
        vec![c]
    } else {
        let mut r = decimal(n / 10);
        r.push(c);
        r
    }
}

impl PartialEq for Item {
    fn eq(&self, other: &Item) -> (r: bool) {
        match (self, other) {
            (Item::Int(x), Item::Int(y)) => *x == *y,
            (Item::BigInt(x), Item::BigInt(y)) => chars_are(x, y.as_slice()),
            (Item::Str(x), Item::Str(y)) => chars_are(x, y.as_slice()),
            _ => false,
        }
    }
}

impl vstd::std_specs::cmp::PartialEqSpecImpl for Item {
    open spec fn obeys_eq_spec() -> bool {
        true
    }

    open spec fn eq_spec(&self, other: &Item) -> bool {
        self@ == other@
    }
}

proof fn lemma_lex_antisymmetric(a: Seq<char>, b: Seq<char>)
    ensures
        lex_cmp(a, b) == reverse(lex_cmp(b, a)),
    decreases a.len(),
{
    if a.len() > 0 && b.len() > 0 && a[0] == b[0] {
        lemma_lex_antisymmetric(a.drop_first(), b.drop_first());
    }
}

proof fn lemma_lex_equal(a: Seq<char>, b: Seq<char>)
    ensures
        (lex_cmp(a, b) == Ordering::Equal) == (a == b),
    decreases a.len(),
{
    if a.len() > 0 && b.len() > 0 {
        if a[0] == b[0] {
            lemma_lex_equal(a.drop_first(), b.drop_first());
            if a.drop_first() == b.drop_first() {
                assert(a =~= seq![a[0]] + a.drop_first());
                assert(b =~= seq![b[0]] + b.drop_first());
            } else if a == b {
                assert(a.drop_first() =~= b.drop_first());
            }
        } else {
            assert(a != b);
        }
    } else if a.len() != b.len() {
        assert(a != b);
    } else {
        assert(a =~= b);
    }
}

/// Swapping two items reverses their order.
pub proof fn lemma_item_cmp_antisymmetric(a: ItemModel, b: ItemModel)
    ensures
        item_cmp(a, b) == reverse(item_cmp(b, a)),
{
    match (a, b) {
        (ItemModel::Big(x), ItemModel::Big(y)) => lemma_lex_antisymmetric(x, y),
        (ItemModel::Str(x), ItemModel::Str(y)) => lemma_lex_antisymmetric(x, y),
        _ => {},
    }
}

/// Two items compare as equal exactly when they are the same item.
pub proof fn lemma_item_cmp_equal(a: ItemModel, b: ItemModel)
    ensures
        (item_cmp(a, b) == Ordering::Equal) == (a == b),
{
    match (a, b) {
        (ItemModel::Big(x), ItemModel::Big(y)) => lemma_lex_equal(x, y),
        (ItemModel::Str(x), ItemModel::Str(y)) => {
            lemma_lex_equal(x, y);
            if rank(x) == rank(y) && rank(x) < 7 {
                if rank(x) == 5 {
                    assert(x =~= y);
                }
            }
        },
        _ => {},
    }
}

/// A run of decimal digits without leading zeros, as a big item holds it.
pub open spec fn canonical_digits(s: Seq<char>) -> bool {
    &&& s.len() > 0
    &&& s[0] != '0'
    &&& forall|j: int| 0 <= j < s.len() ==> is_digit(#[trigger] s[j])
}

proof fn lemma_digits_value_concat(u: Seq<char>, v: Seq<char>)
    ensures
        digits_value(u + v) == digits_value(u) * pow10(v.len()) + digits_value(v),
    decreases v.len(),
{
    if v.len() == 0 {
        assert(u + v =~= u);
        assert(pow10(0) == 1);
        assert(digits_value(v) == 0);
        assert(digits_value(u) * 1 == digits_value(u));
    } else {
        let w = v.drop_last();
        assert((u + v).drop_last() =~= u + w);
        assert((u + v).last() == v.last());
        lemma_digits_value_concat(u, w);
        let a = digits_value(u);
        let p = pow10(w.len());
        let b = digits_value(w);
        let d = digit_value(v.last());
        assert(pow10(v.len()) == 10 * p);
        assert((a * p + b) * 10 + d == a * (10 * p) + (b * 10 + d)) by (nonlinear_arith);
        assert(digits_value(u + v) == digits_value(u + w) * 10 + d);
        assert(digits_value(v) == b * 10 + d);
        assert(digits_value(u) * pow10(v.len()) == a * (10 * p));
    }
}

proof fn lemma_digits_value_split(s: Seq<char>)
    requires
        s.len() > 0,
    ensures
        digits_value(s) == digit_value(s[0]) * pow10((s.len() - 1) as nat) + digits_value(
            s.drop_first(),
        ),
{
    let h = seq![s[0]];
    assert(s =~= h + s.drop_first());
    lemma_digits_value_concat(h, s.drop_first());
    assert(h.drop_last() =~= Seq::<char>::empty());
    assert(digits_value(h) == digits_value(h.drop_last()) * 10 + digit_value(s[0]));
    assert(digits_value(h) == digit_value(s[0]));
}

proof fn lemma_lex_digits_numeric(a: Seq<char>, b: Seq<char>)
    requires
        a.len() == b.len(),
        forall|j: int| 0 <= j < a.len() ==> is_digit(#[trigger] a[j]),
        forall|j: int| 0 <= j < b.len() ==> is_digit(#[trigger] b[j]),
    ensures
        lex_cmp(a, b) == cmp_int(digits_value(a) as int, digits_value(b) as int),
    decreases a.len(),
{
    if a.len() > 0 {
        let (x, y) = (a.drop_first(), b.drop_first());
        assert forall|j: int| 0 <= j < x.len() implies is_digit(#[trigger] x[j]) by {
            assert(x[j] == a[j + 1]);
        }
        assert forall|j: int| 0 <= j < y.len() implies is_digit(#[trigger] y[j]) by {
            assert(y[j] == b[j + 1]);
        }
        lemma_digits_value_split(a);
        lemma_digits_value_split(b);
        lemma_digits_value_bound(x);
        lemma_digits_value_bound(y);
        let p = pow10((a.len() - 1) as nat);
        let (da, db) = (digit_value(a[0]), digit_value(b[0]));
        let (va, vb) = (digits_value(x), digits_value(y));
        assert(is_digit(a[0]) && is_digit(b[0]));
        if a[0] == b[0] {
            lemma_lex_digits_numeric(x, y);
        } else if a[0] < b[0] {
            assert(da < db);
            assert(da * p + va < db * p + vb) by (nonlinear_arith)
                requires
                    da < db,
                    va < p,
            ;
        } else {
            assert(db < da);
            assert(db * p + vb < da * p + va) by (nonlinear_arith)
                requires
                    db < da,
                    vb < p,
            ;
        }
    } else {
        assert(digits_value(a) == 0 && digits_value(b) == 0);
    }
}

proof fn lemma_canonical_digits_lower_bound(s: Seq<char>)
    requires
        canonical_digits(s),
    ensures
        pow10((s.len() - 1) as nat) <= digits_value(s),
{
    lemma_digits_value_split(s);
    assert(is_digit(s[0]));
    let p = pow10((s.len() - 1) as nat);
    let d = digit_value(s[0]);
    assert(d >= 1);
    assert(p <= d * p) by (nonlinear_arith)
        requires
            d >= 1,
    ;
}

proof fn lemma_strip_zeros_digits(s: Seq<char>)
    requires
        forall|j: int| 0 <= j < s.len() ==> is_digit(#[trigger] s[j]),
    ensures
        forall|j: int| 0 <= j < strip_zeros(s).len() ==> is_digit(#[trigger] strip_zeros(s)[j]),
        strip_zeros(s).len() > 0 ==> strip_zeros(s)[0] != '0',
    decreases s.len(),
{
    if s.len() > 0 && s[0] == '0' {
        let t = s.drop_first();
        assert forall|j: int| 0 <= j < t.len() implies is_digit(#[trigger] t[j]) by {
            assert(t[j] == s[j + 1]);
        }
        lemma_strip_zeros_digits(t);
    }
}

/// A run of digits that makes a big item gives it digits without leading zeros.
pub proof fn lemma_number_item_canonical(s: Seq<char>)
    requires
        forall|j: int| 0 <= j < s.len() ==> is_digit(#[trigger] s[j]),
    ensures
        number_item(s) matches ItemModel::Big(d) ==> canonical_digits(d),
{
    lemma_strip_zeros_digits(s);
}

/// Big items compare by the numbers their digits denote.
pub proof fn lemma_digits_cmp_numeric(a: Seq<char>, b: Seq<char>)
    requires
        canonical_digits(a),
        canonical_digits(b),
    ensures
        digits_cmp(a, b) == cmp_int(digits_value(a) as int, digits_value(b) as int),
{
    lemma_digits_value_bound(a);
    lemma_digits_value_bound(b);
    lemma_canonical_digits_lower_bound(a);
    lemma_canonical_digits_lower_bound(b);
    if a.len() < b.len() {
        lemma_pow10_monotone(a.len(), (b.len() - 1) as nat);
    } else if b.len() < a.len() {
        lemma_pow10_monotone(b.len(), (a.len() - 1) as nat);
    } else {
        lemma_lex_digits_numeric(a, b);
    }
}

} // verus!
