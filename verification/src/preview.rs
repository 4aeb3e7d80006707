//! The preview of a directory: its immediate children, directories first and
//! each group in the order of their names.

use vstd::prelude::*;
use vstd::utf8::encode_utf8;

verus! {

/// One child of the previewed directory.
#[derive(Clone, Debug, PartialEq, Eq)]
pub struct PreviewItem {
    pub name: String,
    pub is_dir: bool,
    /// The size in bytes; 0 for a directory and where it could not be read.
    pub size: u64,
}

/// What a [`PreviewItem`] stands for.
pub struct PreviewItemView {
    pub name: Seq<char>,
    pub is_dir: bool,
    pub size: nat,
}

impl View for PreviewItem {
    type V = PreviewItemView;

    open spec fn view(&self) -> PreviewItemView {
        PreviewItemView { name: self.name@, is_dir: self.is_dir, size: self.size as nat }
    }
}

impl DeepView for PreviewItem {
    type V = PreviewItemView;

    open spec fn deep_view(&self) -> PreviewItemView {
        self@
    }
}

/// Lexicographic order on byte strings: `a` and `b` agree on their first `k`
/// bytes, and there `a` ends or has the smaller byte.
pub open spec fn bytes_le(a: Seq<u8>, b: Seq<u8>) -> bool {
    exists|k: int| diverge_at(a, b, k)
}

/// `a` and `b` agree on their first `k` bytes, and there `a` ends or has the
/// smaller byte.
pub open spec fn diverge_at(a: Seq<u8>, b: Seq<u8>, k: int) -> bool {
    &&& 0 <= k <= a.len()
    &&& k <= b.len()
    &&& a.take(k) == b.take(k)
    &&& (k == a.len() || (k < b.len() && a[k] < b[k]))
}

/// The order of names: that of their UTF-8 encodings, byte by byte.
pub open spec fn name_le(a: Seq<char>, b: Seq<char>) -> bool {
    bytes_le(encode_utf8(a), encode_utf8(b))
}

/// The order of a listing: `a` may stand before `b`. Directories stand before
/// files, and within each group the names decide.
pub open spec fn item_le(a: PreviewItemView, b: PreviewItemView) -> bool {
    if a.is_dir != b.is_dir {
        a.is_dir
    } else {
        name_le(a.name, b.name)
    }
}

/// A listing in which every item may stand before all that follow it.
pub open spec fn is_ordered(items: Seq<PreviewItemView>) -> bool {
    forall|i: int, j: int| 0 <= i < j < items.len() ==> item_le(items[i], items[j])
}

/// `sorted` with `x` put behind the last item that may stand before it.
pub open spec fn insert_item(sorted: Seq<PreviewItemView>, x: PreviewItemView) -> Seq<
    PreviewItemView,
>
    decreases sorted.len(),
{
    if sorted.len() == 0 || item_le(sorted.last(), x) {
        sorted.push(x)
    } else {
        insert_item(sorted.drop_last(), x).push(sorted.last())
    }
}

/// The listing in order: each item in turn is put into the ordered listing of
/// those before it, behind its equals.
pub open spec fn sorted_listing(items: Seq<PreviewItemView>) -> Seq<PreviewItemView>
    decreases items.len(),
{
    if items.len() == 0 {
        items
    } else {
        insert_item(sorted_listing(items.drop_last()), items.last())
    }
}

/// Of two byte strings, one is below or equal to the other.
pub proof fn lemma_bytes_le_total(a: Seq<u8>, b: Seq<u8>)
    ensures
        bytes_le(a, b) || bytes_le(b, a),
{
    let n = if a.len() <= b.len() {
        a.len() as int
    } else {
        b.len() as int
    };
    lemma_first_difference(a, b, n);
    if a.take(n) == b.take(n) {
        if a.len() <= b.len() {
            assert(diverge_at(a, b, n));
        } else {
            assert(diverge_at(b, a, n));
        }
    } else {
        let k = choose|k: int| 0 <= k < n && a.take(k) == b.take(k) && a[k] != b[k];
        if a[k] < b[k] {
            assert(diverge_at(a, b, k));
        } else {
            assert(diverge_at(b, a, k));
        }
    }
}

/// Two byte strings agree on their first `n` bytes, or differ first at some
/// index below `n`.
proof fn lemma_first_difference(a: Seq<u8>, b: Seq<u8>, n: int)
    requires
        0 <= n <= a.len(),
        n <= b.len(),
    ensures
        a.take(n) == b.take(n) || exists|k: int|
            0 <= k < n && a.take(k) == b.take(k) && a[k] != b[k],
    decreases n,
{
    if n == 0 {
        assert(a.take(0) =~= b.take(0));
    } else {
        lemma_first_difference(a, b, n - 1);
        if a.take(n - 1) == b.take(n - 1) {
            if a[n - 1] == b[n - 1] {
                assert forall|j: int| 0 <= j < n implies a.take(n)[j] == b.take(n)[j] by {
                    if j < n - 1 {
                        assert(a.take(n - 1)[j] == b.take(n - 1)[j]);
                    }
                }
                assert(a.take(n) =~= b.take(n));
            } else {
                assert(0 <= n - 1 < n && a.take(n - 1) == b.take(n - 1) && a[n - 1] != b[n - 1]);
            }
        } else {
            let k = choose|k: int| 0 <= k < n - 1 && a.take(k) == b.take(k) && a[k] != b[k];
            assert(0 <= k < n && a.take(k) == b.take(k) && a[k] != b[k]);
        }
    }
}

/// Two byte strings that agree on their first `k` bytes agree on fewer.
proof fn lemma_take_shorter(a: Seq<u8>, b: Seq<u8>, k: int, j: int)
    requires
        0 <= j <= k <= a.len(),
        k <= b.len(),
        a.take(k) == b.take(k),
    ensures
        a.take(j) == b.take(j),
        j < k ==> a[j] == b[j],
{
    assert forall|i: int| 0 <= i < j implies a.take(j)[i] == b.take(j)[i] by {
        assert(a.take(k)[i] == b.take(k)[i]);
    }
    assert(a.take(j) =~= b.take(j));
    if j < k {
        assert(a.take(k)[j] == a[j]);
        assert(b.take(k)[j] == b[j]);
    }
}

/// The order on byte strings is transitive.
pub proof fn lemma_bytes_le_transitive(a: Seq<u8>, b: Seq<u8>, c: Seq<u8>)
    requires
        bytes_le(a, b),
        bytes_le(b, c),
    ensures
        bytes_le(a, c),
{
    let k1 = choose|k: int| diverge_at(a, b, k);
    let k2 = choose|k: int| diverge_at(b, c, k);
    if k1 <= k2 {
        lemma_take_shorter(b, c, k2, k1);
        assert(diverge_at(a, c, k1));
    } else {
        lemma_take_shorter(a, b, k1, k2);
        assert(diverge_at(a, c, k2));
    }
}

/// Of two items, one may stand before the other.
pub proof fn lemma_item_le_total(a: PreviewItemView, b: PreviewItemView)
    ensures
        item_le(a, b) || item_le(b, a),
{
    lemma_bytes_le_total(encode_utf8(a.name), encode_utf8(b.name));
}

/// The order of a listing is transitive.
pub proof fn lemma_item_le_transitive(a: PreviewItemView, b: PreviewItemView, c: PreviewItemView)
    requires
        item_le(a, b),
        item_le(b, c),
    ensures
        item_le(a, c),
{
    if a.is_dir == b.is_dir && b.is_dir == c.is_dir {
        lemma_bytes_le_transitive(encode_utf8(a.name), encode_utf8(b.name), encode_utf8(c.name));
    }
}

/// Putting an item into an ordered listing keeps it ordered, and adds that
/// item and no other.
pub proof fn lemma_insert_item(sorted: Seq<PreviewItemView>, x: PreviewItemView)
    requires
        is_ordered(sorted),
    ensures
        is_ordered(insert_item(sorted, x)),
        insert_item(sorted, x).to_multiset() == sorted.to_multiset().insert(x),
        insert_item(sorted, x).len() == sorted.len() + 1,
    decreases sorted.len(),
{
    broadcast use vstd::seq_lib::group_to_multiset_ensures;

    let out = insert_item(sorted, x);
    if sorted.len() == 0 || item_le(sorted.last(), x) {
        assert forall|i: int, j: int| 0 <= i < j < out.len() implies item_le(out[i], out[j]) by {
            if j == sorted.len() {
                if i < sorted.len() - 1 {
                    lemma_item_le_transitive(sorted[i], sorted.last(), x);
                }
            }
        }
    } else {
        let rest = sorted.drop_last();
        let inner = insert_item(rest, x);
        lemma_insert_item(rest, x);
        lemma_item_le_total(sorted.last(), x);
        assert forall|i: int, j: int| 0 <= i < j < out.len() implies item_le(out[i], out[j]) by {
            if j == inner.len() {
                // every item of `inner` is `x` or an item of `rest`
                assert(inner.to_multiset().count(inner[i]) > 0);
                if inner[i] != x {
                    assert(rest.to_multiset().count(inner[i]) > 0);
                    assert(rest.contains(inner[i]));
                    let p = choose|p: int| 0 <= p < rest.len() && rest[p] == inner[i];
                    assert(item_le(sorted[p], sorted[sorted.len() - 1]));
                }
            }
        }
        assert(sorted =~= rest.push(sorted.last()));
    }
}

/// The sorted listing is ordered and holds the items of the listing, each as
/// often as the listing does.
pub proof fn lemma_sorted_listing(items: Seq<PreviewItemView>)
    ensures
        is_ordered(sorted_listing(items)),
        sorted_listing(items).to_multiset() == items.to_multiset(),
        sorted_listing(items).len() == items.len(),
    decreases items.len(),
{
    broadcast use vstd::seq_lib::group_to_multiset_ensures;

    if items.len() > 0 {
        lemma_sorted_listing(items.drop_last());
        lemma_insert_item(sorted_listing(items.drop_last()), items.last());
        assert(items =~= items.drop_last().push(items.last()));
    }
}

/// Whether the name `a` comes before the name `b` or is the same.
pub fn name_before_or_equal(a: &str, b: &str) -> (r: bool)
    ensures
        r == name_le(a@, b@),
{
    let x = a.as_bytes();
    let y = b.as_bytes();
    let mut i: usize = 0;
    while i < x.len() && i < y.len()
        invariant
            i <= x.len(),
            i <= y.len(),
            x@ == encode_utf8(a@),
            y@ == encode_utf8(b@),
            x@.take(i as int) == y@.take(i as int),
        decreases x.len() - i,
    {
        if x[i] != y[i] {
            let below = x[i] < y[i];
            proof {
                if below {
                    assert(diverge_at(x@, y@, i as int));
                } else {
                    lemma_no_divergence_past_greater(x@, y@, i as int);
                }
            }
            return below;
        }
        assert(x@.take(i + 1) =~= x@.take(i as int).push(x@[i as int]));
        assert(y@.take(i + 1) =~= y@.take(i as int).push(y@[i as int]));
        i += 1;
    }
    proof {
        if x.len() <= y.len() {
            assert(diverge_at(x@, y@, i as int));
        } else {
            assert forall|k: int| !diverge_at(x@, y@, k) by {
                if diverge_at(x@, y@, k) {
                    lemma_take_shorter(x@, y@, i as int, k);
                }
            }
        }
    }
    x.len() <= y.len()
}

/// Where `a` has the greater byte at the first index at which it differs from
/// `b`, `a` is not below `b`.
proof fn lemma_no_divergence_past_greater(a: Seq<u8>, b: Seq<u8>, i: int)
    requires
        0 <= i < a.len(),
        i < b.len(),
        a.take(i) == b.take(i),
        a[i] > b[i],
    ensures
        !bytes_le(a, b),
{
    assert forall|k: int| !diverge_at(a, b, k) by {
        if diverge_at(a, b, k) {
            if k <= i {
                lemma_take_shorter(a, b, i, k);
            } else {
                lemma_take_shorter(a, b, k, i);
            }
        }
    }
}

/// Whether `a` may stand before `b` in a listing.
pub fn item_before_or_equal(a: &PreviewItem, b: &PreviewItem) -> (r: bool)
    ensures
        r == item_le(a@, b@),
{
    if a.is_dir != b.is_dir {
        a.is_dir
    } else {
        name_before_or_equal(a.name.as_str(), b.name.as_str())
    }
}

/// Sorts a listing: directories before files, each group by name, and items
/// that are equal in both in the order in which they came.
pub fn sort_listing(items: &Vec<PreviewItem>) -> (out: Vec<PreviewItem>)
    ensures
        out.deep_view() == sorted_listing(items.deep_view()),
        is_ordered(out.deep_view()),
        out.deep_view().to_multiset() == items.deep_view().to_multiset(),
        out.len() == items.len(),
{
    let ghost all = items.deep_view();
    let n = items.len();
    let mut out: Vec<PreviewItem> = Vec::new();
    let mut i: usize = 0;
    proof {
        assert(all.take(0) =~= Seq::<PreviewItemView>::empty());
    }
    while i < n
        invariant
            i <= n,
            n == items.len(),
            all == items.deep_view(),
            out.len() == i,
            out.deep_view() == sorted_listing(all.take(i as int)),
        decreases n - i,
    {
        let item = &items[i];
        let ghost sorted = out.deep_view();
        let mut p: usize = out.len();
        proof {
            assert(sorted.take(p as int) =~= sorted);
            assert(insert_item(sorted, item@) + sorted.skip(p as int) =~= insert_item(
                sorted,
                item@,
            ));
        }
        while p > 0 && !item_before_or_equal(&out[p - 1], item)
            invariant
                p <= out.len(),
                sorted == out.deep_view(),
                i < all.len(),
                item@ == all[i as int],
                insert_item(sorted, item@) == insert_item(sorted.take(p as int), item@)
                    + sorted.skip(p as int),
            decreases p,
        {
            proof {
                let head = sorted.take(p as int);
                assert(head.last() == sorted[p - 1]);
                assert(head.drop_last() =~= sorted.take(p - 1));
                assert(insert_item(head.drop_last(), item@).push(head.last()) + sorted.skip(
                    p as int,
                ) =~= insert_item(sorted.take(p - 1), item@) + sorted.skip(p - 1));
            }
            p -= 1;
        }
        proof {
            let head = sorted.take(p as int);
            if p > 0 {
                assert(head.last() == sorted[p - 1]);
            }
            assert(insert_item(head, item@) == head.push(item@));
            assert(head.push(item@) + sorted.skip(p as int) =~= sorted.insert(p as int, item@));
            assert(all.take(i + 1).drop_last() =~= all.take(i as int));
        }
        out.insert(p, PreviewItem { name: item.name.clone(), is_dir: item.is_dir, size: item.size });
        assert(out.deep_view() =~= sorted.insert(p as int, item@));
        i += 1;
    }
    proof {
        assert(all.take(n as int) =~= all);
        lemma_sorted_listing(all);
    }
    out
}

} // verus!
