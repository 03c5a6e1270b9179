//! Sort keys, their order, and the stable order of a list of keyed items.

use vstd::prelude::*;

use crate::text::chars_of;

verus! {

/// Whether `a` comes before or with `b`, character by character and by code point.
pub open spec fn text_le(a: Seq<char>, b: Seq<char>) -> bool
    decreases a.len(),
{
    ||| a.len() == 0
    ||| b.len() > 0 && (a[0] < b[0] || a[0] == b[0] && text_le(a.skip(1), b.skip(1)))
}

/// Any two texts are ordered one way or the other.
pub proof fn lemma_text_le_total(a: Seq<char>, b: Seq<char>)
    ensures
        text_le(a, b) || text_le(b, a),
    decreases a.len(),
{
    if a.len() > 0 && b.len() > 0 {
        lemma_text_le_total(a.skip(1), b.skip(1));
    }
}

/// The order of texts is transitive.
pub proof fn lemma_text_le_trans(a: Seq<char>, b: Seq<char>, c: Seq<char>)
    requires
        text_le(a, b),
        text_le(b, c),
    ensures
        text_le(a, c),
    decreases a.len(),
{
    if a.len() > 0 && b.len() > 0 && c.len() > 0 && a[0] == b[0] && b[0] == c[0] {
        lemma_text_le_trans(a.skip(1), b.skip(1), c.skip(1));
    }
}

/// Texts ordered both ways are the same text.
pub proof fn lemma_text_le_antisymmetric(a: Seq<char>, b: Seq<char>)
    requires
        text_le(a, b),
        text_le(b, a),
    ensures
        a == b,
    decreases a.len(),
{
    if a.len() > 0 {
        lemma_text_le_antisymmetric(a.skip(1), b.skip(1));
        assert(a =~= seq![a[0]] + a.skip(1));
        assert(b =~= seq![b[0]] + b.skip(1));
    } else {
        assert(a =~= b);
    }
}

/// Whether `a` comes before or with `b`.
pub fn text_not_after(a: &str, b: &str) -> (r: bool)
    ensures
        r == text_le(a@, b@),
{
    let x = chars_of(a);
    let y = chars_of(b);
    let mut i: usize = 0;
    assert(x@.skip(0) =~= x@);
    assert(y@.skip(0) =~= y@);
    while i < x.len()
        invariant
            x@ == a@,
            y@ == b@,
            i <= x@.len(),
            i <= y@.len(),
            text_le(x@, y@) == text_le(x@.skip(i as int), y@.skip(i as int)),
        decreases x@.len() - i,
    {
        if i >= y.len() {
            return false;
        }
        if x[i] < y[i] {
            return true;
        }
        if x[i] != y[i] {
            return false;
        }
        assert(x@.skip(i as int).skip(1) =~= x@.skip(i + 1));
        assert(y@.skip(i as int).skip(1) =~= y@.skip(i + 1));
        i += 1;
    }
    true
}

/// One part of a sort key.
pub enum KeyPart {
    /// A number, ascending.
    Num(i128),
    /// A text, ascending.
    Text(String),
    /// A text, descending.
    TextDown(String),
    /// The fraction `over / under`, descending.
    FractionDown { over: u128, under: u128 },
}

/// The value of a part of a sort key.
pub enum PartModel {
    Num(int),
    Text(Seq<char>),
    TextDown(Seq<char>),
    FractionDown { over: int, under: int },
}

impl DeepView for KeyPart {
    type V = PartModel;

    open spec fn deep_view(&self) -> PartModel {
        match self {
            KeyPart::Num(n) => PartModel::Num(*n as int),
            KeyPart::Text(t) => PartModel::Text(t@),
            KeyPart::TextDown(t) => PartModel::TextDown(t@),
            KeyPart::FractionDown { over, under } => PartModel::FractionDown {
                over: *over as int,
                under: *under as int,
            },
        }
    }
}

/// The place of the kinds of parts among each other.
pub open spec fn part_kind(p: PartModel) -> int {
    match p {
        PartModel::Num(_) => 0,
        PartModel::Text(_) => 1,
        PartModel::TextDown(_) => 2,
        PartModel::FractionDown { .. } => 3,
    }
}

/// Whether the part can be compared: the denominator of a fraction is positive.
pub open spec fn part_ok(p: PartModel) -> bool {
    p matches PartModel::FractionDown { over, under } ==> 0 <= over && 0 < under
}

/// Whether part `a` comes before or with part `b`.
pub open spec fn part_le(a: PartModel, b: PartModel) -> bool {
    match (a, b) {
        (PartModel::Num(x), PartModel::Num(y)) => x <= y,
        (PartModel::Text(x), PartModel::Text(y)) => text_le(x, y),
        (PartModel::TextDown(x), PartModel::TextDown(y)) => text_le(y, x),
        (
            PartModel::FractionDown { over: p, under: q },
            PartModel::FractionDown { over: r, under: s },
        ) => r * q <= p * s,
        _ => part_kind(a) <= part_kind(b),
    }
}

proof fn lemma_fraction_trans(p: int, q: int, r: int, s: int, t: int, u: int)
    requires
        0 <= p,
        0 < q,
        0 <= r,
        0 < s,
        0 <= t,
        0 < u,
        r * q <= p * s,
        t * s <= r * u,
    ensures
        t * q <= p * u,
{
    assert(t * q <= p * u) by (nonlinear_arith)
        requires
            0 <= p,
            0 < q,
            0 <= r,
            0 < s,
            0 <= t,
            0 < u,
            r * q <= p * s,
            t * s <= r * u,
    {
        assert((t * s) * q <= (r * u) * q);
        assert((r * q) * u <= (p * s) * u);
        assert((t * q) * s <= (p * u) * s);
    }
}

proof fn lemma_part_trans(a: PartModel, b: PartModel, c: PartModel)
    requires
        part_ok(a),
        part_ok(b),
        part_ok(c),
        part_le(a, b),
        part_le(b, c),
    ensures
        part_le(a, c),
{
    match (a, b, c) {
        (PartModel::Text(x), PartModel::Text(y), PartModel::Text(z)) => {
            lemma_text_le_trans(x, y, z);
        },
        (PartModel::TextDown(x), PartModel::TextDown(y), PartModel::TextDown(z)) => {
            lemma_text_le_trans(z, y, x);
        },
        (
            PartModel::FractionDown { over: p, under: q },
            PartModel::FractionDown { over: r, under: s },
            PartModel::FractionDown { over: t, under: u },
        ) => {
            lemma_fraction_trans(p, q, r, s, t, u);
        },
        _ => {},
    }
}

proof fn lemma_part_total(a: PartModel, b: PartModel)
    ensures
        part_le(a, b) || part_le(b, a),
{
    match (a, b) {
        (PartModel::Text(x), PartModel::Text(y)) => {
            lemma_text_le_total(x, y);
        },
        (PartModel::TextDown(x), PartModel::TextDown(y)) => {
            lemma_text_le_total(x, y);
        },
        _ => {},
    }
}

impl KeyPart {
    /// Whether this part comes before or with `other`.
    pub fn not_after(&self, other: &KeyPart) -> (r: bool)
        ensures
            r == part_le(self.deep_view(), other.deep_view()),
    {
        match (self, other) {
            (KeyPart::Num(x), KeyPart::Num(y)) => *x <= *y,
            (KeyPart::Text(x), KeyPart::Text(y)) => text_not_after(x, y),
            (KeyPart::TextDown(x), KeyPart::TextDown(y)) => text_not_after(y, x),
            (
                KeyPart::FractionDown { over: p, under: q },
                KeyPart::FractionDown { over: r, under: s },
            ) => product_not_more(*r, *q, *p, *s),
            _ => self.kind() <= other.kind(),
        }
    }

    fn kind(&self) -> (r: u8)
        ensures
            r == part_kind(self.deep_view()),
    {
        match self {
            KeyPart::Num(_) => 0,
            KeyPart::Text(_) => 1,
            KeyPart::TextDown(_) => 2,
            KeyPart::FractionDown { .. } => 3,
        }
    }
}

/// The product of two numbers, as its upper and its lower half.
fn wide_product(a: u128, b: u128) -> (r: (u128, u128))
    ensures
        (a as int) * (b as int) == r.0 * 0x1_0000_0000_0000_0000_0000_0000_0000_0000int + r.1,
{
    let half: u128 = 0x1_0000_0000_0000_0000;
    let a1: u128 = a / half;
    let a0: u128 = a % half;
    let b1: u128 = b / half;
    let b0: u128 = b % half;
    proof {
        lemma_half_product(a0, b0);
        lemma_half_product(a0, b1);
        lemma_half_product(a1, b0);
        lemma_half_product(a1, b1);
    }
    let p00: u128 = a0 * b0;
    let p01: u128 = a0 * b1;
    let p10: u128 = a1 * b0;
    let p11: u128 = a1 * b1;
    let middle: u128 = p00 / half + p01 % half + p10 % half;
    let lower: u128 = p00 % half + (middle % half) * half;
    let upper: u128 = p11 + p01 / half + p10 / half + middle / half;
    proof {
        lemma_halves(a1 as int, a0 as int, b1 as int, b0 as int, half as int);
        assert(a == a1 * half + a0 && b == b1 * half + b0);
        assert((a as int) * (b as int) == p11 * (half * half) + (p01 + p10) * half + p00);
    }
    (upper, lower)
}

proof fn lemma_half_product(a: u128, b: u128)
    requires
        a < 0x1_0000_0000_0000_0000,
        b < 0x1_0000_0000_0000_0000,
    ensures
        0 <= (a as int) * (b as int) <= 0xffff_ffff_ffff_ffff * 0xffff_ffff_ffff_ffff,
{
    assert(0 <= (a as int) * (b as int) <= 0xffff_ffff_ffff_ffff * 0xffff_ffff_ffff_ffff)
        by (nonlinear_arith)
        requires
            0 <= a <= 0xffff_ffff_ffff_ffff,
            0 <= b <= 0xffff_ffff_ffff_ffff,
    ;
}

proof fn lemma_halves(a1: int, a0: int, b1: int, b0: int, half: int)
    ensures
        (a1 * half + a0) * (b1 * half + b0) == (a1 * b1) * (half * half) + (a0 * b1 + a1 * b0)
            * half + a0 * b0,
{
    let x = a1 * half;
    let y = b1 * half;
    assert((x + a0) * (y + b0) == x * y + x * b0 + a0 * y + a0 * b0) by (nonlinear_arith);
    assert(x * y == (a1 * b1) * (half * half)) by (nonlinear_arith)
        requires
            x == a1 * half,
            y == b1 * half,
    ;
    assert(x * b0 == (a1 * b0) * half) by (nonlinear_arith)
        requires
            x == a1 * half,
    ;
    assert(a0 * y == (a0 * b1) * half) by (nonlinear_arith)
        requires
            y == b1 * half,
    ;
    assert((a0 * b1 + a1 * b0) * half == (a0 * b1) * half + (a1 * b0) * half) by (nonlinear_arith);
}

/// Whether `a * b` is not more than `c * d`.
fn product_not_more(a: u128, b: u128, c: u128, d: u128) -> (r: bool)
    ensures
        r == ((a as int) * (b as int) <= (c as int) * (d as int)),
{
    let (x1, x0) = wide_product(a, b);
    let (y1, y0) = wide_product(c, d);
    x1 < y1 || x1 == y1 && x0 <= y0
}

/// A sort key: its parts are compared one after the other.
pub struct SortKey {
    pub parts: Vec<KeyPart>,
}

/// The value of a sort key.
pub type KeyModel = Seq<PartModel>;

impl DeepView for SortKey {
    type V = KeyModel;

    open spec fn deep_view(&self) -> KeyModel {
        self.parts.deep_view()
    }
}

/// Whether every part of the key can be compared.
pub open spec fn key_ok(k: KeyModel) -> bool {
    forall|i: int| 0 <= i < k.len() ==> part_ok(#[trigger] k[i])
}

/// Whether key `a` comes before or with key `b`.
pub open spec fn key_le(a: KeyModel, b: KeyModel) -> bool
    decreases a.len(),
{
    ||| a.len() == 0
    ||| b.len() > 0 && part_le(a[0], b[0]) && (!part_le(b[0], a[0]) || key_le(a.skip(1), b.skip(1)))
}

proof fn lemma_key_trans(a: KeyModel, b: KeyModel, c: KeyModel)
    requires
        key_ok(a),
        key_ok(b),
        key_ok(c),
        key_le(a, b),
        key_le(b, c),
    ensures
        key_le(a, c),
    decreases a.len(),
{
    if a.len() > 0 {
        lemma_part_trans(a[0], b[0], c[0]);
        if part_le(c[0], a[0]) {
            lemma_part_trans(c[0], a[0], b[0]);
            lemma_part_trans(b[0], c[0], a[0]);
            assert(key_ok(a.skip(1)) && key_ok(b.skip(1)) && key_ok(c.skip(1)));
            lemma_key_trans(a.skip(1), b.skip(1), c.skip(1));
        }
    }
}

proof fn lemma_key_total(a: KeyModel, b: KeyModel)
    ensures
        key_le(a, b) || key_le(b, a),
    decreases a.len(),
{
    if a.len() > 0 && b.len() > 0 {
        lemma_part_total(a[0], b[0]);
        lemma_key_total(a.skip(1), b.skip(1));
    }
}

impl SortKey {
    /// Whether this key comes before or with `other`.
    pub fn not_after(&self, other: &SortKey) -> (r: bool)
        ensures
            r == key_le(self.deep_view(), other.deep_view()),
    {
        let ghost a = self.deep_view();
        let ghost b = other.deep_view();
        let mut i: usize = 0;
        assert(a.skip(0) =~= a);
        assert(b.skip(0) =~= b);
        while i < self.parts.len()
            invariant
                a == self.deep_view(),
                b == other.deep_view(),
                i <= a.len(),
                i <= b.len(),
                key_le(a, b) == key_le(a.skip(i as int), b.skip(i as int)),
            decreases a.len() - i,
        {
            if i >= other.parts.len() {
                return false;
            }
            assert(a[i as int] == self.parts@[i as int].deep_view());
            assert(b[i as int] == other.parts@[i as int].deep_view());
            if !self.parts[i].not_after(&other.parts[i]) {
                return false;
            }
            if !other.parts[i].not_after(&self.parts[i]) {
                return true;
            }
            assert(a.skip(i as int).skip(1) =~= a.skip(i + 1));
            assert(b.skip(i as int).skip(1) =~= b.skip(i + 1));
            i += 1;
        }
        true
    }
}

/// Whether item `x` comes before item `y`: by key, and by place among equal keys.
pub open spec fn before(keys: Seq<KeyModel>, x: int, y: int) -> bool {
    key_le(keys[x], keys[y]) && (x < y || !key_le(keys[y], keys[x]))
}

/// Whether all keys can be compared.
pub open spec fn keys_ok(keys: Seq<KeyModel>) -> bool {
    forall|i: int| 0 <= i < keys.len() ==> key_ok(#[trigger] keys[i])
}

proof fn lemma_before_trans(keys: Seq<KeyModel>, x: int, y: int, z: int)
    requires
        keys_ok(keys),
        0 <= x < keys.len(),
        0 <= y < keys.len(),
        0 <= z < keys.len(),
        before(keys, x, y),
        before(keys, y, z),
    ensures
        before(keys, x, z),
{
    lemma_key_trans(keys[x], keys[y], keys[z]);
    if key_le(keys[z], keys[x]) {
        lemma_key_trans(keys[z], keys[x], keys[y]);
        lemma_key_trans(keys[y], keys[z], keys[x]);
    }
}

/// Whether `order` lists the places from `lo` up to `hi` in ascending order.
pub open spec fn lists_range(keys: Seq<KeyModel>, order: Seq<int>, lo: int, hi: int) -> bool {
    &&& order.len() == hi - lo
    &&& forall|k: int| 0 <= k < order.len() ==> lo <= #[trigger] order[k] < hi
    &&& forall|k: int, l: int|
        0 <= k < l < order.len() ==> before(keys, #[trigger] order[k], #[trigger] order[l])
    &&& forall|i: int| lo <= i < hi ==> #[trigger] order.contains(i)
}

/// Whether `order` lists all items, ascending by key, equal keys in their given order.
pub open spec fn is_order(keys: Seq<KeyModel>, order: Seq<int>) -> bool {
    lists_range(keys, order, 0, keys.len() as int)
}

/// The stable ascending order of items with these keys, as a list of places.
pub open spec fn order_of(keys: Seq<KeyModel>) -> Seq<int> {
    choose|order: Seq<int>| is_order(keys, order)
}

/// The items in the stable ascending order of their keys.
pub open spec fn ordered<T>(items: Seq<T>, keys: Seq<KeyModel>) -> Seq<T> {
    Seq::new(items.len(), |k: int| items[order_of(keys)[k]])
}

/// There is one stable order only.
pub proof fn lemma_order_unique(keys: Seq<KeyModel>, a: Seq<int>, b: Seq<int>)
    requires
        is_order(keys, a),
        is_order(keys, b),
    ensures
        a == b,
{
    assert forall|k: int| 0 <= k < a.len() implies a[k] == b[k] by {
        lemma_order_unique_at(keys, a, b, k);
    }
    assert(a =~= b);
}

proof fn lemma_order_unique_at(keys: Seq<KeyModel>, a: Seq<int>, b: Seq<int>, k: int)
    requires
        is_order(keys, a),
        is_order(keys, b),
        0 <= k < a.len(),
    ensures
        a[k] == b[k],
    decreases k,
{
    assert(b.contains(a[k]));
    assert(a.contains(b[k]));
    let m = choose|m: int| 0 <= m < b.len() && b[m] == a[k];
    let n = choose|n: int| 0 <= n < a.len() && a[n] == b[k];
    if m < k {
        lemma_order_unique_at(keys, a, b, m);
        assert(before(keys, a[m], a[k]));
    }
    if n < k {
        lemma_order_unique_at(keys, a, b, n);
        assert(before(keys, b[n], b[k]));
    }
    if a[k] != b[k] {
        assert(before(keys, b[k], b[m]));
        assert(before(keys, a[k], a[n]));
    }
}

/// There is a stable order.
pub proof fn lemma_order_exists(keys: Seq<KeyModel>)
    requires
        keys_ok(keys),
    ensures
        is_order(keys, order_of(keys)),
{
    let order = lemma_some_order(keys, keys.len() as int);
    assert(is_order(keys, order));
}

proof fn lemma_some_order(keys: Seq<KeyModel>, n: int) -> (order: Seq<int>)
    requires
        keys_ok(keys),
        0 <= n <= keys.len(),
    ensures
        lists_range(keys, order, 0, n),
    decreases n,
{
    if n == 0 {
        Seq::empty()
    } else {
        let rest = lemma_some_order(keys, n - 1);
        let p = lemma_insert_place(keys, rest, n - 1, rest.len() as int);
        let order = rest.take(p) + seq![n - 1] + rest.skip(p);
        assert forall|k: int, l: int| 0 <= k < l < order.len() implies before(
            keys,
            #[trigger] order[k],
            #[trigger] order[l],
        ) by {
            if k < p && l == p {
            } else if k == p && l > p {
                let x = rest[l - 1];
                lemma_key_total(keys[x], keys[n - 1]);
            } else if k < p && l < p {
                assert(before(keys, rest[k], rest[l]));
            } else if k < p {
                assert(before(keys, rest[k], rest[l - 1]));
            } else {
                assert(before(keys, rest[k - 1], rest[l - 1]));
            }
        }
        assert forall|i: int| 0 <= i < n implies #[trigger] order.contains(i) by {
            if i == n - 1 {
                assert(order[p] == i);
            } else {
                assert(rest.contains(i));
                let k = choose|k: int| 0 <= k < rest.len() && rest[k] == i;
                if k < p {
                    assert(order[k] == i);
                } else {
                    assert(order[k + 1] == i);
                }
            }
        }
        order
    }
}

/// Where item `n` belongs in `rest`: behind all items that its key does not precede.
proof fn lemma_insert_place(keys: Seq<KeyModel>, rest: Seq<int>, n: int, upto: int) -> (p: int)
    requires
        keys_ok(keys),
        lists_range(keys, rest, 0, n),
        n < keys.len(),
        0 <= upto <= rest.len(),
        forall|k: int| upto <= k < rest.len() ==> !key_le(keys[#[trigger] rest[k]], keys[n]),
    ensures
        0 <= p <= rest.len(),
        forall|k: int| 0 <= k < p ==> before(keys, #[trigger] rest[k], n),
        forall|k: int| p <= k < rest.len() ==> !key_le(keys[#[trigger] rest[k]], keys[n]),
    decreases upto,
{
    if upto == 0 {
        0
    } else if key_le(keys[rest[upto - 1]], keys[n]) {
        assert forall|k: int| 0 <= k < upto implies before(keys, #[trigger] rest[k], n) by {
            if k < upto - 1 {
                assert(before(keys, rest[k], rest[upto - 1]));
                lemma_key_trans(keys[rest[k]], keys[rest[upto - 1]], keys[n]);
            }
        }
        upto
    } else {
        lemma_insert_place(keys, rest, n, upto - 1)
    }
}

/// The places that an exec list of places names.
pub open spec fn places(order: Seq<usize>) -> Seq<int> {
    Seq::new(order.len(), |k: int| order[k] as int)
}

fn merge(keys: &Vec<SortKey>, a: &Vec<usize>, b: &Vec<usize>, Ghost(lo): Ghost<int>, Ghost(mid): Ghost<int>, Ghost(hi): Ghost<int>) -> (r: Vec<usize>)
    requires
        keys_ok(keys.deep_view()),
        0 <= lo <= mid <= hi <= keys@.len(),
        lists_range(keys.deep_view(), places(a@), lo, mid),
        lists_range(keys.deep_view(), places(b@), mid, hi),
    ensures
        lists_range(keys.deep_view(), places(r@), lo, hi),
{
    let ghost km = keys.deep_view();
    let ghost pa = places(a@);
    let ghost pb = places(b@);
    let mut out: Vec<usize> = Vec::new();
    let mut i: usize = 0;
    let mut j: usize = 0;
    while i < a.len() || j < b.len()
        invariant
            km == keys.deep_view(),
            pa == places(a@),
            pb == places(b@),
            keys_ok(km),
            0 <= lo <= mid <= hi <= km.len(),
            lists_range(km, pa, lo, mid),
            lists_range(km, pb, mid, hi),
            i <= a@.len(),
            j <= b@.len(),
            out@.len() == i + j,
            forall|k: int| 0 <= k < out@.len() ==> lo <= #[trigger] out@[k] < hi,
            forall|k: int, l: int|
                0 <= k < l < out@.len() ==> before(
                    km,
                    #[trigger] out@[k] as int,
                    #[trigger] out@[l] as int,
                ),
            forall|k: int, l: int|
                0 <= k < out@.len() && i <= l < pa.len() ==> before(
                    km,
                    #[trigger] out@[k] as int,
                    #[trigger] pa[l],
                ),
            forall|k: int, l: int|
                0 <= k < out@.len() && j <= l < pb.len() ==> before(
                    km,
                    #[trigger] out@[k] as int,
                    #[trigger] pb[l],
                ),
            forall|m: int| 0 <= m < i ==> places(out@).contains(#[trigger] pa[m]),
            forall|m: int| 0 <= m < j ==> places(out@).contains(#[trigger] pb[m]),
        decreases a@.len() - i + b@.len() - j,
    {
        let ghost out0 = out@;
        let take_a = if i >= a.len() {
            false
        } else if j >= b.len() {
            true
        } else {
            let x = a[i];
            let y = b[j];
            assert(pa[i as int] == x as int);
            assert(pb[j as int] == y as int);
            proof {
                lemma_key_total(km[x as int], km[y as int]);
            }
            keys[x].not_after(&keys[y])
        };
        if take_a {
            let x = a[i];
            assert(pa[i as int] == x as int);
            out.push(x);
            i += 1;
            proof {
                assert forall|k: int, l: int|
                    0 <= k < out@.len() && j <= l < pb.len() implies before(
                    km,
                    #[trigger] out@[k] as int,
                    #[trigger] pb[l],
                ) by {
                    if k == out0.len() {
                        assert(before(km, x as int, pb[j as int]));
                        if l > j {
                            lemma_before_trans(km, x as int, pb[j as int], pb[l]);
                        }
                    }
                }
                assert(out@[out0.len() as int] == x);
                assert(places(out@)[out0.len() as int] == x as int);
            }
        } else {
            let y = b[j];
            assert(pb[j as int] == y as int);
            out.push(y);
            j += 1;
            proof {
                assert forall|k: int, l: int|
                    0 <= k < out@.len() && i <= l < pa.len() implies before(
                    km,
                    #[trigger] out@[k] as int,
                    #[trigger] pa[l],
                ) by {
                    if k == out0.len() {
                        assert(before(km, y as int, pa[i as int]));
                        if l > i {
                            lemma_before_trans(km, y as int, pa[i as int], pa[l]);
                        }
                    }
                }
                assert(places(out@)[out0.len() as int] == y as int);
            }
        }
        proof {
            assert forall|v: int| #[trigger] places(out0).contains(v) implies places(
                out@,
            ).contains(v) by {
                let k = choose|k: int| 0 <= k < places(out0).len() && places(out0)[k] == v;
                assert(places(out@)[k] == v);
            }
        }
    }
    proof {
        let po = places(out@);
        assert forall|v: int| lo <= v < hi implies #[trigger] po.contains(v) by {
            if v < mid {
                assert(pa.contains(v));
                let m = choose|m: int| 0 <= m < pa.len() && pa[m] == v;
                assert(po.contains(pa[m]));
            } else {
                assert(pb.contains(v));
                let m = choose|m: int| 0 <= m < pb.len() && pb[m] == v;
                assert(po.contains(pb[m]));
            }
        }
    }
    out
}

fn order_range(keys: &Vec<SortKey>, lo: usize, hi: usize) -> (r: Vec<usize>)
    requires
        keys_ok(keys.deep_view()),
        lo <= hi <= keys@.len(),
    ensures
        lists_range(keys.deep_view(), places(r@), lo as int, hi as int),
    decreases hi - lo,
{
    if hi - lo < 2 {
        let mut out: Vec<usize> = Vec::new();
        if lo < hi {
            out.push(lo);
            assert(places(out@)[0] == lo);
        }
        out
    } else {
        let mid = lo + (hi - lo) / 2;
        let a = order_range(keys, lo, mid);
        let b = order_range(keys, mid, hi);
        merge(keys, &a, &b, Ghost(lo as int), Ghost(mid as int), Ghost(hi as int))
    }
}

/// The stable ascending order of items with these keys.
pub fn stable_order(keys: &Vec<SortKey>) -> (r: Vec<usize>)
    requires
        keys_ok(keys.deep_view()),
    ensures
        places(r@) == order_of(keys.deep_view()),
        is_order(keys.deep_view(), places(r@)),
{
    let r = order_range(keys, 0, keys.len());
    proof {
        let km = keys.deep_view();
        assert(is_order(km, places(r@)));
        lemma_order_exists(km);
        lemma_order_unique(km, places(r@), order_of(km));
    }
    r
}

} // verus!
