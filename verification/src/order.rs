//! Orders, and sorting by them.

use vstd::prelude::*;
use crate::text;

verus! {

/// How values of a type rank: `not_after` is total and transitive, and two values may rank the
/// same without being equal.
pub trait Order: Sized {
    /// Whether `self` may stand before `other`.
    spec fn not_after(self, other: Self) -> bool;

    /// Of two values, one may stand before the other.
    proof fn lemma_total(a: Self, b: Self)
        ensures
            a.not_after(b) || b.not_after(a),
    ;

    /// What may stand before a value may stand before all that come after it.
    proof fn lemma_transitive(a: Self, b: Self, c: Self)
        requires
            a.not_after(b),
            b.not_after(c),
        ensures
            a.not_after(c),
    ;
}

/// A value that a sort can compare with others.
pub trait Ranked: Sized {
    /// What the value is compared by.
    type Rank: Order;

    /// What this value is compared by.
    spec fn rank(self) -> Self::Rank;

    /// Whether `self` may stand before `other`.
    fn stands_first(&self, other: &Self) -> (r: bool)
        ensures
            r == self.rank().not_after(other.rank()),
    ;
}

/// What values are compared by.
pub open spec fn ranks<K: Ranked>(keys: Seq<K>) -> Seq<K::Rank> {
    Seq::new(keys.len(), |i: int| keys[i].rank())
}

impl Order for int {
    open spec fn not_after(self, other: int) -> bool {
        self <= other
    }

    proof fn lemma_total(a: int, b: int) {
    }

    proof fn lemma_transitive(a: int, b: int, c: int) {
    }
}

impl Ranked for i64 {
    type Rank = int;

    open spec fn rank(self) -> int {
        self as int
    }

    fn stands_first(&self, other: &i64) -> (r: bool) {
        *self <= *other
    }
}

/// Whether one text comes before another: by the first character in which they differ, and a
/// text before what it is the start of. UTF-8 keeps this order, byte by byte.
pub open spec fn text_less(a: Seq<char>, b: Seq<char>) -> bool
    decreases a.len(),
{
    if b.len() == 0 {
        false
    } else if a.len() == 0 {
        true
    } else if a[0] != b[0] {
        a[0] < b[0]
    } else {
        text_less(a.skip(1), b.skip(1))
    }
}

/// The first character in which two texts differ tells which comes first.
pub proof fn lemma_text_less_at(a: Seq<char>, b: Seq<char>, k: int)
    requires
        0 <= k < a.len(),
        k < b.len(),
        forall|i: int| 0 <= i < k ==> #[trigger] a[i] == b[i],
        a[k] < b[k],
    ensures
        text_less(a, b),
    decreases k,
{
    if k > 0 {
        assert(a[0] == b[0]);
        let x = a.skip(1);
        let y = b.skip(1);
        assert forall|i: int| 0 <= i < k - 1 implies #[trigger] x[i] == y[i] by {
            assert(a[i + 1] == b[i + 1]);
        }
        lemma_text_less_at(x, y, k - 1);
    }
}

/// No text comes before itself.
pub proof fn lemma_text_irreflexive(a: Seq<char>)
    ensures
        !text_less(a, a),
    decreases a.len(),
{
    if a.len() > 0 {
        lemma_text_irreflexive(a.skip(1));
    }
}

/// Of two different texts, one comes before the other.
pub proof fn lemma_text_total(a: Seq<char>, b: Seq<char>)
    ensures
        text_less(a, b) || text_less(b, a) || a == b,
    decreases a.len(),
{
    if a.len() > 0 && b.len() > 0 {
        if a[0] == b[0] {
            lemma_text_total(a.skip(1), b.skip(1));
            if a.skip(1) == b.skip(1) {
                assert(a == seq![a[0]] + a.skip(1));
                assert(b == seq![b[0]] + b.skip(1));
            }
        }
    } else if a.len() == 0 && b.len() == 0 {
        assert(a == b);
    }
}

/// The order of texts is transitive.
pub proof fn lemma_text_transitive(a: Seq<char>, b: Seq<char>, c: Seq<char>)
    requires
        text_less(a, b),
        text_less(b, c),
    ensures
        text_less(a, c),
    decreases a.len(),
{
    if a.len() > 0 && b.len() > 0 && c.len() > 0 && a[0] == b[0] && b[0] == c[0] {
        lemma_text_transitive(a.skip(1), b.skip(1), c.skip(1));
    }
}

/// Two texts are not each before the other.
pub proof fn lemma_text_asymmetric(a: Seq<char>, b: Seq<char>)
    requires
        text_less(a, b),
    ensures
        !text_less(b, a),
        a != b,
{
    lemma_text_irreflexive(a);
    if text_less(b, a) {
        lemma_text_transitive(a, b, a);
    }
}

/// Tells whether one text comes before another.
pub fn is_text_less(a: &str, b: &str) -> (r: bool)
    ensures
        r == text_less(a@, b@),
{
    let x = text::chars_of(a);
    let y = text::chars_of(b);
    let mut i: usize = 0;
    assert(a@.skip(0) == a@);
    assert(b@.skip(0) == b@);
    while i < x.len() && i < y.len() && x[i] == y[i]
        invariant
            x@ == a@,
            y@ == b@,
            i <= x@.len(),
            i <= y@.len(),
            text_less(a@.skip(i as int), b@.skip(i as int)) == text_less(a@, b@),
        decreases x@.len() - i,
    {
        assert(a@.skip(i as int).skip(1) == a@.skip(i + 1));
        assert(b@.skip(i as int).skip(1) == b@.skip(i + 1));
        i += 1;
    }
    if i >= y.len() {
        false
    } else if i >= x.len() {
        true
    } else {
        x[i] < y[i]
    }
}

impl Order for Seq<char> {
    open spec fn not_after(self, other: Seq<char>) -> bool {
        !text_less(other, self)
    }

    proof fn lemma_total(a: Seq<char>, b: Seq<char>) {
        if text_less(a, b) {
            lemma_text_asymmetric(a, b);
        }
    }

    proof fn lemma_transitive(a: Seq<char>, b: Seq<char>, c: Seq<char>) {
        if text_less(c, a) {
            lemma_text_total(a, b);
            if text_less(a, b) {
                lemma_text_transitive(c, a, b);
            }
        }
    }
}

impl Ranked for String {
    type Rank = Seq<char>;

    open spec fn rank(self) -> Seq<char> {
        self@
    }

    fn stands_first(&self, other: &String) -> (r: bool) {
        !is_text_less(other.as_str(), self.as_str())
    }
}

/// A value that ranks in the reverse of its own order.
pub struct Descending<K>(pub K);

impl<K: Order> Order for Descending<K> {
    open spec fn not_after(self, other: Descending<K>) -> bool {
        other.0.not_after(self.0)
    }

    proof fn lemma_total(a: Descending<K>, b: Descending<K>) {
        K::lemma_total(a.0, b.0);
    }

    proof fn lemma_transitive(a: Descending<K>, b: Descending<K>, c: Descending<K>) {
        K::lemma_transitive(c.0, b.0, a.0);
    }
}

impl<K: Ranked> Ranked for Descending<K> {
    type Rank = Descending<K::Rank>;

    open spec fn rank(self) -> Descending<K::Rank> {
        Descending(self.0.rank())
    }

    fn stands_first(&self, other: &Descending<K>) -> (r: bool) {
        other.0.stands_first(&self.0)
    }
}

// ---------------------------------------------------------------------------------------------
// Stable sorting of positions

/// Whether position `p` comes before position `q` in a stable sort by `keys`: its key ranks
/// first, or ranks the same and stands first.
pub open spec fn precedes<K: Order>(keys: Seq<K>, p: int, q: int) -> bool {
    if p < q {
        keys[p].not_after(keys[q])
    } else {
        !keys[q].not_after(keys[p])
    }
}

/// Positions in sorted order, with `p` put where it belongs among them.
pub open spec fn insert_ranked<K: Order>(keys: Seq<K>, order: Seq<int>, p: int) -> Seq<int>
    decreases order.len(),
{
    if order.len() == 0 || precedes(keys, order.last(), p) {
        order.push(p)
    } else {
        insert_ranked(keys, order.drop_last(), p).push(order.last())
    }
}

/// The first `n` positions in the order of a stable sort by `keys`.
pub open spec fn stable_order<K: Order>(keys: Seq<K>, n: nat) -> Seq<int>
    decreases n,
{
    if n == 0 {
        seq![]
    } else {
        insert_ranked(keys, stable_order(keys, (n - 1) as nat), n - 1)
    }
}

/// The positions of `keys` in the order of a stable sort.
pub open spec fn sorted_positions<K: Order>(keys: Seq<K>) -> Seq<int> {
    stable_order(keys, keys.len())
}

/// Whether `order` lists each position from `lo` to `hi` once, each before those that it
/// precedes.
pub open spec fn is_order<K: Order>(keys: Seq<K>, order: Seq<int>, lo: int, hi: int) -> bool {
    &&& order.len() == hi - lo
    &&& forall|i: int| 0 <= i < order.len() ==> lo <= #[trigger] order[i] < hi
    &&& forall|p: int| lo <= p < hi ==> #[trigger] order.contains(p)
    &&& forall|i: int, j: int|
        0 <= i < j < order.len() ==> precedes(keys, #[trigger] order[i], #[trigger] order[j])
}

proof fn lemma_precedes_transitive<K: Order>(keys: Seq<K>, p: int, q: int, r: int)
    requires
        precedes(keys, p, q),
        precedes(keys, q, r),
    ensures
        precedes(keys, p, r),
{
    K::lemma_total(keys[p], keys[q]);
    K::lemma_total(keys[q], keys[r]);
    K::lemma_total(keys[p], keys[r]);
    K::lemma_total(keys[p], keys[p]);
    if keys[r].not_after(keys[p]) {
        if keys[p].not_after(keys[q]) {
            K::lemma_transitive(keys[r], keys[p], keys[q]);
        }
        if keys[q].not_after(keys[r]) {
            K::lemma_transitive(keys[q], keys[r], keys[p]);
        }
    }
    if keys[p].not_after(keys[q]) && keys[q].not_after(keys[r]) {
        K::lemma_transitive(keys[p], keys[q], keys[r]);
    }
}

proof fn lemma_precedes_total<K: Order>(keys: Seq<K>, p: int, q: int)
    ensures
        p != q ==> precedes(keys, p, q) || precedes(keys, q, p),
        !(precedes(keys, p, q) && precedes(keys, q, p)),
{
    K::lemma_total(keys[p], keys[q]);
}

proof fn lemma_insert_ranked<K: Order>(keys: Seq<K>, order: Seq<int>, p: int)
    requires
        !order.contains(p),
        forall|i: int, j: int|
            0 <= i < j < order.len() ==> precedes(keys, #[trigger] order[i], #[trigger] order[j]),
    ensures
        insert_ranked(keys, order, p).len() == order.len() + 1,
        insert_ranked(keys, order, p).contains(p),
        forall|x: int| order.contains(x) ==> #[trigger] insert_ranked(keys, order, p).contains(x),
        forall|x: int| #[trigger] insert_ranked(keys, order, p).contains(x) ==> x == p || order.contains(x),
        forall|i: int, j: int|
            0 <= i < j < order.len() + 1 ==> precedes(
                keys,
                #[trigger] insert_ranked(keys, order, p)[i],
                #[trigger] insert_ranked(keys, order, p)[j],
            ),
    decreases order.len(),
{
    let out = insert_ranked(keys, order, p);
    if order.len() == 0 || precedes(keys, order.last(), p) {
        assert(out[order.len() as int] == p);
        assert forall|x: int| order.contains(x) implies #[trigger] out.contains(x) by {
            let i = order.index_of(x);
            assert(out[i] == x);
        }
        assert forall|i: int, j: int| 0 <= i < j < order.len() + 1 implies precedes(
            keys,
            #[trigger] out[i],
            #[trigger] out[j],
        ) by {
            if j == order.len() {
                assert(out[i] == order[i]);
                if i < order.len() - 1 {
                    lemma_precedes_transitive(keys, order[i], order.last(), p);
                }
            } else {
                assert(out[i] == order[i] && out[j] == order[j]);
            }
        }
    } else {
        let head = order.drop_last();
        let last = order.last();
        let rest = insert_ranked(keys, head, p);
        assert(!head.contains(p)) by {
            if head.contains(p) {
                assert(order[head.index_of(p)] == p);
            }
        }
        lemma_insert_ranked(keys, head, p);
        assert(out == rest.push(last));
        assert(order[order.len() - 1] == last);
        assert(order.contains(last));
        lemma_precedes_total(keys, p, last);
        assert(out[rest.index_of(p)] == p);
        assert forall|x: int| order.contains(x) implies #[trigger] out.contains(x) by {
            let i = order.index_of(x);
            if i < head.len() {
                assert(head[i] == x);
                assert(head.contains(x));
                assert(rest.contains(x));
                assert(out[rest.index_of(x)] == x);
            } else {
                assert(out[rest.len() as int] == x);
            }
        }
        assert forall|x: int| #[trigger] out.contains(x) implies x == p || order.contains(x) by {
            let i = out.index_of(x);
            if i < rest.len() {
                assert(rest[i] == x);
                assert(rest.contains(x));
                if head.contains(x) {
                    assert(order[head.index_of(x)] == x);
                }
            }
        }
        assert forall|i: int, j: int| 0 <= i < j < order.len() + 1 implies precedes(
            keys,
            #[trigger] out[i],
            #[trigger] out[j],
        ) by {
            if j < rest.len() {
                assert(out[i] == rest[i] && out[j] == rest[j]);
            } else {
                assert(out[i] == rest[i]);
                assert(rest.contains(rest[i]));
                if rest[i] != p {
                    let k = head.index_of(rest[i]);
                    assert(order[k] == rest[i]);
                    assert(precedes(keys, order[k], order[order.len() - 1]));
                }
            }
        }
    }
}

/// A stable sort lists every position once, and lists a position before all that it precedes:
/// keys come in order, and positions whose keys rank the same keep theirs.
pub proof fn law_stable_order<K: Order>(keys: Seq<K>, n: nat)
    ensures
        is_order(keys, stable_order(keys, n), 0, n as int),
    decreases n,
{
    if n > 0 {
        let before = stable_order(keys, (n - 1) as nat);
        law_stable_order(keys, (n - 1) as nat);
        assert(!before.contains(n - 1)) by {
            if before.contains(n - 1) {
                assert(before[before.index_of(n - 1)] == n - 1);
            }
        }
        lemma_insert_ranked(keys, before, n - 1);
        let out = stable_order(keys, n);
        assert forall|i: int| 0 <= i < out.len() implies 0 <= #[trigger] out[i] < n by {
            assert(out.contains(out[i]));
            if before.contains(out[i]) {
                assert(before[before.index_of(out[i])] == out[i]);
            }
        }
        assert forall|p: int| 0 <= p < n implies #[trigger] out.contains(p) by {
            if p < n - 1 {
                assert(before.contains(p));
            }
        }
    }
}

/// There is only one order of the positions in which each stands before those it precedes.
pub proof fn law_order_is_unique<K: Order>(keys: Seq<K>, a: Seq<int>, b: Seq<int>)
    requires
        a.len() == b.len(),
        forall|x: int| a.contains(x) <==> b.contains(x),
        forall|i: int, j: int|
            0 <= i < j < a.len() ==> precedes(keys, #[trigger] a[i], #[trigger] a[j]),
        forall|i: int, j: int|
            0 <= i < j < b.len() ==> precedes(keys, #[trigger] b[i], #[trigger] b[j]),
    ensures
        a == b,
    decreases a.len(),
{
    if a.len() > 0 {
        let n = a.len() - 1;
        let x = a[n];
        let y = b[n];
        assert(a.contains(x) && b.contains(y));
        if x != y {
            let i = b.index_of(x);
            let j = a.index_of(y);
            assert(precedes(keys, b[i], b[n]));
            assert(precedes(keys, a[j], a[n]));
            lemma_precedes_total(keys, x, y);
        }
        let c = a.drop_last();
        let d = b.drop_last();
        assert forall|z: int| c.contains(z) <==> d.contains(z) by {
            if c.contains(z) {
                let i = c.index_of(z);
                assert(a[i] == z);
                assert(precedes(keys, a[i], a[n]));
                lemma_precedes_total(keys, z, x);
                assert(a.contains(z));
                let k = b.index_of(z);
                assert(d[k] == z);
            }
            if d.contains(z) {
                let i = d.index_of(z);
                assert(b[i] == z);
                assert(precedes(keys, b[i], b[n]));
                lemma_precedes_total(keys, z, x);
                assert(b.contains(z));
                let k = a.index_of(z);
                assert(c[k] == z);
            }
        }
        law_order_is_unique(keys, c, d);
        assert(a == c.push(x));
        assert(b == d.push(x));
    }
    assert(a =~= b);
}

/// The positions that a vector holds.
pub open spec fn positions(v: Seq<usize>) -> Seq<int> {
    Seq::new(v.len(), |i: int| v[i] as int)
}

fn merge_runs<K: Ranked>(keys: &[K], left: Vec<usize>, right: Vec<usize>, Ghost(lo): Ghost<int>, Ghost(mid): Ghost<int>, Ghost(hi): Ghost<int>) -> (r: Vec<usize>)
    requires
        0 <= lo <= mid <= hi <= keys@.len(),
        is_order(ranks(keys@), positions(left@), lo, mid),
        is_order(ranks(keys@), positions(right@), mid, hi),
    ensures
        is_order(ranks(keys@), positions(r@), lo, hi),
{
    let mut r: Vec<usize> = Vec::new();
    let mut i: usize = 0;
    let mut j: usize = 0;
    let ghost ks = ranks(keys@);
    let ghost a = positions(left@);
    let ghost b = positions(right@);
    while i < left.len() || j < right.len()
        invariant
            0 <= lo <= mid <= hi <= keys@.len(),
            ks == ranks(keys@),
            a == positions(left@),
            b == positions(right@),
            is_order(ranks(keys@), a, lo, mid),
            is_order(ranks(keys@), b, mid, hi),
            i <= left@.len(),
            j <= right@.len(),
            r@.len() == i + j,
            forall|k: int| 0 <= k < i ==> positions(r@).contains(#[trigger] a[k]),
            forall|k: int| 0 <= k < j ==> positions(r@).contains(#[trigger] b[k]),
            forall|k: int| 0 <= k < r@.len() ==> lo <= #[trigger] positions(r@)[k] < hi,
            forall|k: int, l: int|
                0 <= k < r@.len() && i <= l < a.len() ==> precedes(
                    ks,
                    #[trigger] positions(r@)[k],
                    #[trigger] a[l],
                ),
            forall|k: int, l: int|
                0 <= k < r@.len() && j <= l < b.len() ==> precedes(
                    ks,
                    #[trigger] positions(r@)[k],
                    #[trigger] b[l],
                ),
            forall|k: int, l: int|
                0 <= k < l < r@.len() ==> precedes(
                    ks,
                    #[trigger] positions(r@)[k],
                    #[trigger] positions(r@)[l],
                ),
        decreases left@.len() - i + right@.len() - j,
    {
        let take_left: bool = if i >= left.len() {
            false
        } else if j >= right.len() {
            true
        } else {
            assert(a[i as int] == left@[i as int]);
            assert(b[j as int] == right@[j as int]);
            keys[left[i]].stands_first(&keys[right[j]])
        };
        let ghost old_r = positions(r@);
        if take_left {
            let x: usize = left[i];
            assert(a[i as int] == x);
            r.push(x);
            proof {
                let now = positions(r@);
                assert(now == old_r.push(x as int));
                assert forall|k: int| 0 <= k < i + 1 implies now.contains(#[trigger] a[k]) by {
                    if k < i {
                        assert(now[old_r.index_of(a[k])] == a[k]);
                    } else {
                        assert(now[old_r.len() as int] == a[k]);
                    }
                }
                assert forall|k: int| 0 <= k < j implies now.contains(#[trigger] b[k]) by {
                    assert(now[old_r.index_of(b[k])] == b[k]);
                }
                assert forall|k: int, l: int| 0 <= k < now.len() && j <= l < b.len() implies precedes(
                    ks,
                    #[trigger] now[k],
                    #[trigger] b[l],
                ) by {
                    if k < old_r.len() {
                        assert(now[k] == old_r[k]);
                    } else {
                        assert(precedes(ks, x as int, b[j as int]));
                        if l > j {
                            lemma_precedes_transitive(ks, x as int, b[j as int], b[l]);
                        }
                    }
                }
                assert forall|k: int, l: int| 0 <= k < now.len() && i + 1 <= l < a.len() implies precedes(
                    ks,
                    #[trigger] now[k],
                    #[trigger] a[l],
                ) by {
                    if k < old_r.len() {
                        assert(now[k] == old_r[k]);
                    } else {
                        assert(precedes(ks, a[i as int], a[l]));
                    }
                }
                assert forall|k: int, l: int| 0 <= k < l < now.len() implies precedes(
                    ks,
                    #[trigger] now[k],
                    #[trigger] now[l],
                ) by {
                    assert(now[k] == old_r[k]);
                    if l == old_r.len() {
                        assert(precedes(ks, old_r[k], a[i as int]));
                    } else {
                        assert(now[l] == old_r[l]);
                    }
                }
            }
            i += 1;
        } else {
            let x: usize = right[j];
            assert(b[j as int] == x);
            r.push(x);
            proof {
                let now = positions(r@);
                assert(now == old_r.push(x as int));
                assert forall|k: int| 0 <= k < j + 1 implies now.contains(#[trigger] b[k]) by {
                    if k < j {
                        assert(now[old_r.index_of(b[k])] == b[k]);
                    } else {
                        assert(now[old_r.len() as int] == b[k]);
                    }
                }
                assert forall|k: int| 0 <= k < i implies now.contains(#[trigger] a[k]) by {
                    assert(now[old_r.index_of(a[k])] == a[k]);
                }
                assert forall|k: int, l: int| 0 <= k < now.len() && i <= l < a.len() implies precedes(
                    ks,
                    #[trigger] now[k],
                    #[trigger] a[l],
                ) by {
                    if k < old_r.len() {
                        assert(now[k] == old_r[k]);
                    } else {
                        assert(precedes(ks, x as int, a[i as int]));
                        if l > i {
                            lemma_precedes_transitive(ks, x as int, a[i as int], a[l]);
                        }
                    }
                }
                assert forall|k: int, l: int| 0 <= k < now.len() && j + 1 <= l < b.len() implies precedes(
                    ks,
                    #[trigger] now[k],
                    #[trigger] b[l],
                ) by {
                    if k < old_r.len() {
                        assert(now[k] == old_r[k]);
                    } else {
                        assert(precedes(ks, b[j as int], b[l]));
                    }
                }
                assert forall|k: int, l: int| 0 <= k < l < now.len() implies precedes(
                    ks,
                    #[trigger] now[k],
                    #[trigger] now[l],
                ) by {
                    assert(now[k] == old_r[k]);
                    if l == old_r.len() {
                        assert(precedes(ks, old_r[k], b[j as int]));
                    } else {
                        assert(now[l] == old_r[l]);
                    }
                }
            }
            j += 1;
        }
    }
    proof {
        let out = positions(r@);
        assert forall|p: int| lo <= p < hi implies #[trigger] out.contains(p) by {
            if p < mid {
                assert(a.contains(p));
                assert(out.contains(a[a.index_of(p)]));
            } else {
                assert(b.contains(p));
                assert(out.contains(b[b.index_of(p)]));
            }
        }
    }
    r
}

fn sort_range<K: Ranked>(keys: &[K], lo: usize, hi: usize) -> (r: Vec<usize>)
    requires
        lo <= hi <= keys@.len(),
    ensures
        is_order(ranks(keys@), positions(r@), lo as int, hi as int),
    decreases hi - lo,
{
    if hi - lo <= 1 {
        let mut r: Vec<usize> = Vec::new();
        if lo < hi {
            r.push(lo);
            assert(positions(r@)[0] == lo);
        }
        r
    } else {
        let mid: usize = lo + (hi - lo) / 2;
        let left = sort_range(keys, lo, mid);
        let right = sort_range(keys, mid, hi);
        merge_runs(keys, left, right, Ghost(lo as int), Ghost(mid as int), Ghost(hi as int))
    }
}

/// The positions of `keys` in the order of a stable sort.
pub fn sort_positions<K: Ranked>(keys: &[K]) -> (r: Vec<usize>)
    ensures
        positions(r@) == sorted_positions(ranks(keys@)),
{
    let r = sort_range(keys, 0, keys.len());
    proof {
        let n = keys@.len();
        let a = positions(r@);
        let b = sorted_positions(ranks(keys@));
        law_stable_order(ranks(keys@), n);
        assert forall|x: int| a.contains(x) <==> b.contains(x) by {
            if a.contains(x) {
                assert(0 <= a[a.index_of(x)] < n);
            }
            if b.contains(x) {
                assert(0 <= b[b.index_of(x)] < n);
            }
        }
        law_order_is_unique(ranks(keys@), a, b);
    }
    r
}

/// One text comes before another exactly if it is a shorter start of it, or has the lesser character
/// where they first differ.
pub proof fn law_text_order_is_by_first_difference(a: Seq<char>, b: Seq<char>, k: int)
    requires
        0 <= k <= a.len(),
        k <= b.len(),
        forall|i: int| 0 <= i < k ==> #[trigger] a[i] == b[i],
        k < a.len() && k < b.len() ==> a[k] != b[k],
    ensures
        k < a.len() && k < b.len() ==> (text_less(a, b) <==> a[k] < b[k]),
        k == a.len() || k == b.len() ==> (text_less(a, b) <==> a.len() < b.len()),
    decreases k,
{
    if k > 0 {
        assert(a[0] == b[0]);
        let x = a.skip(1);
        let y = b.skip(1);
        assert forall|i: int| 0 <= i < k - 1 implies #[trigger] x[i] == y[i] by {
            assert(a[i + 1] == b[i + 1]);
        }
        law_text_order_is_by_first_difference(x, y, k - 1);
    }
}

/// Sorted positions of numbers: each position comes once, lesser numbers come first, and equal ones
/// in the order of their positions.
pub proof fn law_sorted_positions_of_numbers(keys: Seq<int>)
    ensures
        sorted_positions(keys).len() == keys.len(),
        forall|p: int| 0 <= p < keys.len() ==> #[trigger] sorted_positions(keys).contains(p),
        forall|i: int, j: int|
            0 <= i < j < keys.len() ==> {
                let p = #[trigger] sorted_positions(keys)[i];
                let q = #[trigger] sorted_positions(keys)[j];
                0 <= p < keys.len() && 0 <= q < keys.len() && (keys[p] < keys[q] || (keys[p] == keys[q] && p
                    < q))
            },
{
    law_stable_order(keys, keys.len());
    let sorted = sorted_positions(keys);
    assert forall|i: int, j: int| 0 <= i < j < keys.len() implies {
        let p = #[trigger] sorted[i];
        let q = #[trigger] sorted[j];
        0 <= p < keys.len() && 0 <= q < keys.len() && (keys[p] < keys[q] || (keys[p] == keys[q] && p < q))
    } by {
        assert(precedes(keys, sorted[i], sorted[j]));
        lemma_positions_differ(keys, i, j);
    }
}

/// No position is listed twice.
proof fn lemma_positions_differ(keys: Seq<int>, i: int, j: int)
    requires
        0 <= i < j < keys.len(),
    ensures
        sorted_positions(keys)[i] != sorted_positions(keys)[j],
{
    law_stable_order(keys, keys.len());
    let sorted = sorted_positions(keys);
    assert(precedes(keys, sorted[i], sorted[j]));
}

} // verus!
