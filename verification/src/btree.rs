//! The B+ tree index: an ordered map from index keys to document ids with
//! point lookup, range scan, lazy deletion and insertion with node splits.
//!
//! A node is well formed within half-open key bounds: a separator sends the
//! keys strictly below it to the left and the rest to the right. Leaves are
//! split only between distinct keys, so equivalent keys always share a leaf
//! and a single descent finds every duplicate.

use vstd::prelude::*;

use crate::error::MongoLiteError;
use crate::index::IndexMetadata;
use crate::key::{key_cmp, key_le, key_lt, IndexKey, IndexKeyV};
use crate::key::{lemma_key_cmp_antisym, lemma_key_cmp_refl, lemma_key_cmp_trans};
use crate::value::{DocumentId, DocumentIdV};

verus! {

broadcast use vstd::std_specs::vec::group_vec_axioms;

/// A tree node: an internal router or a leaf with the entries.
#[derive(Debug)]
pub enum Node {
    Internal { keys: Vec<IndexKey>, children: Vec<Node> },
    Leaf { keys: Vec<IndexKey>, values: Vec<DocumentId> },
}

/// One indexed pair.
pub type EntryV = (IndexKeyV, DocumentIdV);

/// The entries of a leaf.
pub open spec fn leaf_entries(keys: Seq<IndexKey>, values: Seq<DocumentId>) -> Seq<EntryV> {
    Seq::new(keys.len(), |i: int| (keys[i]@, values[i]@))
}

/// The entries of a node, in key order.
pub open spec fn node_entries(n: Node) -> Seq<EntryV>
    decreases n, 0int,
{
    match n {
        Node::Leaf { keys, values } => leaf_entries(keys@, values@),
        Node::Internal { keys, children } => children_entries(children@, children@.len() as int),
    }
}

/// The entries of the children `cs[..j]`, concatenated.
pub open spec fn children_entries(cs: Seq<Node>, j: int) -> Seq<EntryV>
    decreases cs, j,
{
    if 0 < j <= cs.len() {
        children_entries(cs, j - 1) + node_entries(cs[j - 1])
    } else {
        Seq::empty()
    }
}

/// `k` is within the lower bound.
pub open spec fn in_lower(lo: Option<IndexKeyV>, k: IndexKeyV) -> bool {
    match lo {
        Some(l) => key_le(l, k),
        None => true,
    }
}

/// `k` is within the upper bound (strictly).
pub open spec fn in_upper(hi: Option<IndexKeyV>, k: IndexKeyV) -> bool {
    match hi {
        Some(h) => key_lt(k, h),
        None => true,
    }
}

/// `k` is within the half-open window `[lo, hi)`.
pub open spec fn in_range(lo: Option<IndexKeyV>, hi: Option<IndexKeyV>, k: IndexKeyV) -> bool {
    in_lower(lo, k) && in_upper(hi, k)
}

/// A separator sits strictly inside the window: strictly above the lower
/// bound, strictly below the upper.
pub open spec fn sep_in_range(lo: Option<IndexKeyV>, hi: Option<IndexKeyV>, k: IndexKeyV) -> bool {
    &&& (lo matches Some(l) ==> key_lt(l, k))
    &&& in_upper(hi, k)
}

/// Lower bound of child `i` under separators `keys`.
pub open spec fn child_lo(keys: Seq<IndexKey>, lo: Option<IndexKeyV>, i: int) -> Option<
    IndexKeyV,
> {
    if i == 0 {
        lo
    } else {
        Some(keys[i - 1]@)
    }
}

/// Upper bound of child `i` under separators `keys`.
pub open spec fn child_hi(keys: Seq<IndexKey>, hi: Option<IndexKeyV>, i: int) -> Option<
    IndexKeyV,
> {
    if i == keys.len() {
        hi
    } else {
        Some(keys[i]@)
    }
}

/// A node is well formed within the half-open key window `[lo, hi)`:
/// leaves carry sorted keys in the window, one id per key; internal nodes
/// carry strictly increasing separators in the window and one more child
/// than separators, each child well formed within its separator window.
pub open spec fn wf_node(n: Node, lo: Option<IndexKeyV>, hi: Option<IndexKeyV>) -> bool
    decreases n, 1int,
{
    match n {
        Node::Leaf { keys, values } => {
            &&& keys@.len() == values@.len()
            &&& forall|p: int, q: int| 0 <= p < q < keys@.len() ==> key_le(keys@[p]@, keys@[q]@)
            &&& forall|p: int| 0 <= p < keys@.len() ==> in_range(lo, hi, keys@[p]@)
        }
        Node::Internal { keys, children } => {
            &&& keys@.len() >= 1
            &&& children@.len() == keys@.len() + 1
            &&& forall|p: int, q: int| 0 <= p < q < keys@.len() ==> key_lt(keys@[p]@, keys@[q]@)
            &&& forall|p: int| 0 <= p < keys@.len() ==> sep_in_range(lo, hi, keys@[p]@)
            &&& wf_children(keys@, children@, lo, hi, children@.len() as int)
        }
    }
}

/// The children `cs[..j]` are well formed within their separator windows.
pub open spec fn wf_children(
    keys: Seq<IndexKey>,
    cs: Seq<Node>,
    lo: Option<IndexKeyV>,
    hi: Option<IndexKeyV>,
    j: int,
) -> bool
    decreases cs, j,
{
    if 0 < j <= cs.len() {
        wf_children(keys, cs, lo, hi, j - 1) && wf_node(
            cs[j - 1],
            child_lo(keys, lo, j - 1),
            child_hi(keys, hi, j - 1),
        )
    } else {
        true
    }
}

/// Some entry carries a key equivalent to `k`.
pub open spec fn has_key(es: Seq<EntryV>, k: IndexKeyV) -> bool {
    exists|t: int| 0 <= t < es.len() && key_cmp(es[t].0, k) == 0
}

/// Every entry key is within the window.
pub open spec fn entries_in_range(
    es: Seq<EntryV>,
    lo: Option<IndexKeyV>,
    hi: Option<IndexKeyV>,
) -> bool {
    forall|t: int| 0 <= t < es.len() ==> in_range(lo, hi, (#[trigger] es[t]).0)
}

/// The entry keys are sorted.
pub open spec fn entries_sorted(es: Seq<EntryV>) -> bool {
    forall|p: int, q: int| 0 <= p < q < es.len() ==> key_le(es[p].0, es[q].0)
}

// ---------------------------------------------------------------------------
// Bridging lemmas
// ---------------------------------------------------------------------------

/// Well-formedness of a child prefix extends to shorter prefixes.
pub proof fn lemma_wf_children_prefix(
    keys: Seq<IndexKey>,
    cs: Seq<Node>,
    lo: Option<IndexKeyV>,
    hi: Option<IndexKeyV>,
    j: int,
    n: int,
)
    requires
        wf_children(keys, cs, lo, hi, n),
        0 <= j <= n <= cs.len(),
    ensures
        wf_children(keys, cs, lo, hi, j),
    decreases n,
{
    if j < n {
        lemma_wf_children_prefix(keys, cs, lo, hi, j, n - 1);
    }
}

/// Each well-formed child of a well-formed prefix is well formed.
pub proof fn lemma_wf_children_index(
    keys: Seq<IndexKey>,
    cs: Seq<Node>,
    lo: Option<IndexKeyV>,
    hi: Option<IndexKeyV>,
    j: int,
    k: int,
)
    requires
        wf_children(keys, cs, lo, hi, j),
        0 <= k < j <= cs.len(),
    ensures
        wf_node(cs[k], child_lo(keys, lo, k), child_hi(keys, hi, k)),
    decreases j,
{
    if k < j - 1 {
        lemma_wf_children_index(keys, cs, lo, hi, j - 1, k);
    }
}

/// Concatenated child entries decompose around one child.
pub proof fn lemma_children_entries_split(cs: Seq<Node>, j: int, k: int)
    requires
        0 <= k < j <= cs.len(),
    ensures
        exists|a: Seq<EntryV>, b: Seq<EntryV>| children_entries(cs, j) == a + node_entries(
            cs[k],
        ) + b && a == children_entries(cs, k),
    decreases j,
{
    if k == j - 1 {
        let a = children_entries(cs, k);
        let b = Seq::<EntryV>::empty();
        assert(children_entries(cs, j) =~= a + node_entries(cs[k]) + b);
    } else {
        lemma_children_entries_split(cs, j - 1, k);
        let (a, b) = choose|a: Seq<EntryV>, b: Seq<EntryV>|
            children_entries(cs, j - 1) == a + node_entries(cs[k]) + b && a == children_entries(
                cs,
                k,
            );
        let b2 = b + node_entries(cs[j - 1]);
        assert(children_entries(cs, j) =~= a + node_entries(cs[k]) + b2);
    }
}

/// `has_key` over a concatenation.
pub proof fn lemma_has_key_concat(a: Seq<EntryV>, b: Seq<EntryV>, k: IndexKeyV)
    ensures
        has_key(a + b, k) == (has_key(a, k) || has_key(b, k)),
{
    if has_key(a, k) {
        let t = choose|t: int| 0 <= t < a.len() && key_cmp(a[t].0, k) == 0;
        assert((a + b)[t] == a[t]);
    }
    if has_key(b, k) {
        let t = choose|t: int| 0 <= t < b.len() && key_cmp(b[t].0, k) == 0;
        assert((a + b)[a.len() + t] == b[t]);
    }
    if has_key(a + b, k) {
        let t = choose|t: int| 0 <= t < (a + b).len() && key_cmp((a + b)[t].0, k) == 0;
        if t < a.len() {
            assert(a[t] == (a + b)[t]);
        } else {
            assert(b[t - a.len()] == (a + b)[t]);
        }
    }
}

/// Entries of a well-formed node are within its window.
pub proof fn lemma_wf_entries_in_range(n: Node, lo: Option<IndexKeyV>, hi: Option<IndexKeyV>)
    requires
        wf_node(n, lo, hi),
    ensures
        entries_in_range(node_entries(n), lo, hi),
    decreases n, 1int,
{
    match n {
        Node::Leaf { keys, values } => {}
        Node::Internal { keys, children } => {
            lemma_wf_children_entries_in_range(
                keys@,
                children@,
                lo,
                hi,
                children@.len() as int,
            );
        }
    }
}

/// Entries of a well-formed child prefix are within the outer window.
pub proof fn lemma_wf_children_entries_in_range(
    keys: Seq<IndexKey>,
    cs: Seq<Node>,
    lo: Option<IndexKeyV>,
    hi: Option<IndexKeyV>,
    j: int,
)
    requires
        wf_children(keys, cs, lo, hi, j),
        j <= cs.len(),
        cs.len() == keys.len() + 1,
        forall|p: int, q: int| 0 <= p < q < keys.len() ==> key_lt(keys[p]@, keys[q]@),
        forall|p: int| 0 <= p < keys.len() ==> sep_in_range(lo, hi, keys[p]@),
    ensures
        entries_in_range(children_entries(cs, j), lo, hi),
    decreases cs, j,
{
    if 0 < j <= cs.len() {
        lemma_wf_children_entries_in_range(keys, cs, lo, hi, j - 1);
        lemma_wf_entries_in_range(
            cs[j - 1],
            child_lo(keys, lo, j - 1),
            child_hi(keys, hi, j - 1),
        );
        let a = children_entries(cs, j - 1);
        let b = node_entries(cs[j - 1]);
        assert forall|t: int| 0 <= t < (a + b).len() implies in_range(
            lo,
            hi,
            (#[trigger] (a + b)[t]).0,
        ) by {
            if t < a.len() {
                assert((a + b)[t] == a[t]);
            } else {
                assert((a + b)[t] == b[t - a.len()]);
                let k = b[t - a.len()].0;
                if j - 1 > 0 {
                    // lower bound comes through the separator
                    assert(key_le(keys[j - 2]@, k));
                    assert(in_lower(lo, keys[j - 2]@));
                    if lo is Some {
                        lemma_key_cmp_trans(lo->Some_0, keys[j - 2]@, k);
                    }
                }
                if j - 1 < keys.len() {
                    assert(key_lt(k, keys[j - 1]@));
                    assert(in_upper(hi, keys[j - 1]@));
                    if hi is Some {
                        lemma_key_cmp_trans(k, keys[j - 1]@, hi->Some_0);
                    }
                }
            }
        }
    }
}

/// Entries of a well-formed node are sorted by key.
pub proof fn lemma_wf_entries_sorted(n: Node, lo: Option<IndexKeyV>, hi: Option<IndexKeyV>)
    requires
        wf_node(n, lo, hi),
    ensures
        entries_sorted(node_entries(n)),
    decreases n, 1int,
{
    match n {
        Node::Leaf { keys, values } => {}
        Node::Internal { keys, children } => {
            lemma_wf_children_entries_sorted(keys@, children@, lo, hi, children@.len() as int);
        }
    }
}

/// Entries of a well-formed child prefix are sorted, and all lie strictly
/// below the prefix's own upper separator window.
pub proof fn lemma_wf_children_entries_sorted(
    keys: Seq<IndexKey>,
    cs: Seq<Node>,
    lo: Option<IndexKeyV>,
    hi: Option<IndexKeyV>,
    j: int,
)
    requires
        wf_children(keys, cs, lo, hi, j),
        j <= cs.len(),
        cs.len() == keys.len() + 1,
        forall|p: int, q: int| 0 <= p < q < keys.len() ==> key_lt(keys[p]@, keys[q]@),
        forall|p: int| 0 <= p < keys.len() ==> sep_in_range(lo, hi, keys[p]@),
    ensures
        entries_sorted(children_entries(cs, j)),
        j >= 1 ==> entries_in_range(children_entries(cs, j), lo, child_hi(keys, hi, j - 1)),
    decreases cs, j,
{
    if 0 < j <= cs.len() {
        lemma_wf_children_entries_sorted(keys, cs, lo, hi, j - 1);
        lemma_wf_entries_in_range(
            cs[j - 1],
            child_lo(keys, lo, j - 1),
            child_hi(keys, hi, j - 1),
        );
        lemma_wf_entries_sorted(
            cs[j - 1],
            child_lo(keys, lo, j - 1),
            child_hi(keys, hi, j - 1),
        );
        let a = children_entries(cs, j - 1);
        let b = node_entries(cs[j - 1]);
        let all = a + b;
        assert forall|p: int, q: int| 0 <= p < q < all.len() implies key_le(all[p].0, all[q].0) by {
            if q < a.len() {
                assert(all[p] == a[p] && all[q] == a[q]);
            } else if p >= a.len() {
                assert(all[p] == b[p - a.len()] && all[q] == b[q - a.len()]);
            } else {
                assert(all[p] == a[p] && all[q] == b[q - a.len()]);
                // a's keys are below the separator before child j-1,
                // b's keys are at or above it
                let sep = keys[j - 2]@;
                assert(in_range(lo, child_hi(keys, hi, j - 2), a[p].0));
                assert(key_lt(a[p].0, sep));
                assert(key_le(sep, b[q - a.len()].0));
                lemma_key_cmp_trans(a[p].0, sep, b[q - a.len()].0);
            }
        }
        assert forall|t: int| 0 <= t < all.len() implies in_range(
            lo,
            child_hi(keys, hi, j - 1),
            (#[trigger] all[t]).0,
        ) by {
            if t < a.len() {
                assert(all[t] == a[t]);
                if j - 1 >= 1 {
                    let k = a[t].0;
                    assert(in_range(lo, child_hi(keys, hi, j - 2), k));
                    assert(key_lt(k, keys[j - 2]@));
                    if j - 1 < keys.len() {
                        assert(key_lt(keys[j - 2]@, keys[j - 1]@));
                        lemma_key_cmp_trans(k, keys[j - 2]@, keys[j - 1]@);
                    } else {
                        assert(in_upper(hi, keys[j - 2]@));
                        if hi is Some {
                            lemma_key_cmp_trans(k, keys[j - 2]@, hi->Some_0);
                        }
                    }
                }
            } else {
                assert(all[t] == b[t - a.len()]);
                let k = b[t - a.len()].0;
                assert(in_range(child_lo(keys, lo, j - 1), child_hi(keys, hi, j - 1), k));
                if j - 1 > 0 {
                    assert(key_le(keys[j - 2]@, k));
                    assert(in_lower(lo, keys[j - 2]@));
                    if lo is Some {
                        lemma_key_cmp_trans(lo->Some_0, keys[j - 2]@, k);
                    }
                }
            }
        }
    }
}

} // verus!

verus! {

// ---------------------------------------------------------------------------
// Decomposing runs of children
// ---------------------------------------------------------------------------

/// The entries of the children `cs[i..]`, concatenated.
pub open spec fn ce_from(cs: Seq<Node>, i: int) -> Seq<EntryV>
    decreases cs, cs.len() - i, 0int,
{
    if 0 <= i < cs.len() {
        node_entries(cs[i]) + ce_from(cs, i + 1)
    } else {
        Seq::empty()
    }
}

/// All child entries split at position `i`.
pub proof fn lemma_ce_decompose(cs: Seq<Node>, i: int)
    requires
        0 <= i <= cs.len(),
    ensures
        children_entries(cs, cs.len() as int) == children_entries(cs, i) + ce_from(cs, i),
    decreases cs.len() - i,
{
    if i == cs.len() {
        assert(children_entries(cs, i) + ce_from(cs, i) =~= children_entries(cs, i));
    } else {
        lemma_ce_decompose(cs, i + 1);
        assert(children_entries(cs, i + 1) == children_entries(cs, i) + node_entries(cs[i]));
        assert((children_entries(cs, i) + node_entries(cs[i])) + ce_from(cs, i + 1)
            =~= children_entries(cs, i) + (node_entries(cs[i]) + ce_from(cs, i + 1)));
    }
}

/// Entry runs agree on pointwise-equal child runs.
pub proof fn lemma_ce_from_congruent(cs: Seq<Node>, cs2: Seq<Node>, i: int, i2: int)
    requires
        0 <= i <= cs.len(),
        0 <= i2 <= cs2.len(),
        cs.len() - i == cs2.len() - i2,
        forall|t: int| 0 <= t < cs.len() - i ==> #[trigger] cs2[i2 + t] == cs[i + t],
    ensures
        ce_from(cs2, i2) == ce_from(cs, i),
    decreases cs.len() - i,
{
    if i < cs.len() {
        assert(cs2[i2 + 0] == cs[i + 0]);
        assert forall|t: int| 0 <= t < cs.len() - (i + 1) implies #[trigger] cs2[(i2 + 1) + t]
            == cs[(i + 1) + t] by {
            let u = 1 + t;
            assert(cs2[i2 + u] == cs[i + u]);
        }
        lemma_ce_from_congruent(cs, cs2, i + 1, i2 + 1);
    }
}

/// Entry prefixes agree on pointwise-equal child prefixes.
pub proof fn lemma_ce_prefix_congruent(cs: Seq<Node>, cs2: Seq<Node>, j: int)
    requires
        0 <= j <= cs.len(),
        j <= cs2.len(),
        forall|t: int| 0 <= t < j ==> cs2[t] == cs[t],
    ensures
        children_entries(cs2, j) == children_entries(cs, j),
    decreases j,
{
    if j > 0 {
        lemma_ce_prefix_congruent(cs, cs2, j - 1);
    }
}

/// Build well-formedness of a child prefix from per-child well-formedness.
pub proof fn lemma_wf_children_build(
    keys: Seq<IndexKey>,
    cs: Seq<Node>,
    lo: Option<IndexKeyV>,
    hi: Option<IndexKeyV>,
    j: int,
)
    requires
        j <= cs.len(),
        forall|k: int| 0 <= k < j ==> wf_node(
            #[trigger] cs[k],
            child_lo(keys, lo, k),
            child_hi(keys, hi, k),
        ),
    ensures
        wf_children(keys, cs, lo, hi, j),
    decreases j,
{
    if j > 0 {
        lemma_wf_children_build(keys, cs, lo, hi, j - 1);
    }
}

// ---------------------------------------------------------------------------
// Point lookup
// ---------------------------------------------------------------------------

/// Index of the child a key belongs to: past every separator at or below it.
fn find_child(keys: &Vec<IndexKey>, key: &IndexKey) -> (i: usize)
    ensures
        i <= keys@.len(),
        forall|j: int| 0 <= j < i ==> key_cmp((#[trigger] keys@[j])@, key@) <= 0,
        i < keys@.len() ==> key_cmp(key@, keys@[i as int]@) < 0,
{
    let mut i: usize = 0;
    while i < keys.len()
        invariant
            i <= keys@.len(),
            forall|j: int| 0 <= j < i ==> key_cmp((#[trigger] keys@[j])@, key@) <= 0,
        decreases keys@.len() - i,
    {
        let c = keys[i].cmp_key(key);
        if c > 0 {
            proof {
                lemma_key_cmp_antisym(keys@[i as int]@, key@);
            }
            return i;
        }
        i = i + 1;
    }
    i
}

/// Point lookup within a well-formed node.
fn search_in_node(
    node: &Node,
    key: &IndexKey,
    Ghost(lo): Ghost<Option<IndexKeyV>>,
    Ghost(hi): Ghost<Option<IndexKeyV>>,
) -> (r: Option<DocumentId>)
    requires
        wf_node(*node, lo, hi),
    ensures
        (r is Some) == has_key(node_entries(*node), key@),
        r matches Some(id) ==> exists|t: int|
            0 <= t < node_entries(*node).len() && key_cmp(
                (#[trigger] node_entries(*node)[t]).0,
                key@,
            ) == 0 && node_entries(*node)[t].1 == id@,
    decreases node,
{
    match node {
        Node::Leaf { keys, values } => {
            let ghost es = node_entries(*node);
            let mut i: usize = 0;
            while i < keys.len()
                invariant
                    i <= keys@.len(),
                    keys@.len() == values@.len(),
                    es == leaf_entries(keys@, values@),
                    es == node_entries(*node),
                    forall|j: int| 0 <= j < i ==> key_cmp((#[trigger] keys@[j])@, key@) != 0,
                decreases keys@.len() - i,
            {
                let c = keys[i].cmp_key(key);
                if c == 0 {
                    proof {
                        assert(es[i as int] == (keys@[i as int]@, values@[i as int]@));
                        assert(has_key(es, key@));
                    }
                    return Some(values[i].clone());
                }
                i = i + 1;
            }
            proof {
                assert(forall|t: int| 0 <= t < es.len()
                    ==> (#[trigger] es[t]).0 == keys@[t]@);
                assert(!has_key(es, key@));
            }
            None
        }
        Node::Internal { keys, children } => {
            let i = find_child(keys, key);
            proof {
                assert(decreases_to!(*children => children@[i as int]));
                assert(decreases_to!(*node => children@[i as int]));
                lemma_wf_children_index(
                    keys@,
                    children@,
                    lo,
                    hi,
                    children@.len() as int,
                    i as int,
                );
            }
            let r = search_in_node(
                &children[i],
                key,
                Ghost(child_lo(keys@, lo, i as int)),
                Ghost(child_hi(keys@, hi, i as int)),
            );
            proof {
                let cs = children@;
                let n = cs.len() as int;
                let es = node_entries(*node);
                lemma_ce_decompose(cs, i as int);
                lemma_ce_decompose(cs, i + 1);
                assert(ce_from(cs, i as int) == node_entries(cs[i as int]) + ce_from(cs, i + 1));
                let a = children_entries(cs, i as int);
                let m = node_entries(cs[i as int]);
                let b = ce_from(cs, i + 1);
                assert(es =~= a + (m + b));
                // keys in the left part are at or below a separator at or
                // below the key; keys in the right part are above the key
                lemma_wf_children_prefix(keys@, cs, lo, hi, i as int, cs.len() as int);
                lemma_wf_children_entries_sorted(keys@, cs, lo, hi, i as int);
                assert forall|t: int| 0 <= t < a.len() implies key_cmp(
                    (#[trigger] a[t]).0,
                    key@,
                ) != 0 by {
                    assert(in_range(lo, child_hi(keys@, hi, i - 1), a[t].0));
                    assert(key_lt(a[t].0, keys@[i - 1]@));
                    assert(key_cmp(keys@[i - 1]@, key@) <= 0);
                    lemma_key_cmp_trans(a[t].0, keys@[i - 1]@, key@);
                }
                assert forall|t: int| 0 <= t < b.len() implies key_cmp(
                    (#[trigger] b[t]).0,
                    key@,
                ) != 0 by {
                    lemma_suffix_keys_above(keys@, cs, lo, hi, i + 1, t);
                    assert(key_le(keys@[i as int]@, b[t].0));
                    assert(key_cmp(key@, keys@[i as int]@) < 0);
                    lemma_key_cmp_trans(key@, keys@[i as int]@, b[t].0);
                    lemma_key_cmp_antisym(key@, b[t].0);
                }
                lemma_has_key_concat(a, m + b, key@);
                lemma_has_key_concat(m, b, key@);
                match &r {
                    Some(id) => {
                        let t = choose|t: int|
                            0 <= t < m.len() && key_cmp((#[trigger] m[t]).0, key@) == 0
                                && m[t].1 == id@;
                        assert(es[a.len() + t] == m[t]);
                    }
                    None => {}
                }
            }
            r
        }
    }
}

/// Keys of entries in the children `cs[i..]` sit at or above separator
/// `keys[i-1]`.
proof fn lemma_suffix_keys_above(
    keys: Seq<IndexKey>,
    cs: Seq<Node>,
    lo: Option<IndexKeyV>,
    hi: Option<IndexKeyV>,
    i: int,
    t: int,
)
    requires
        1 <= i <= cs.len(),
        cs.len() == keys.len() + 1,
        wf_children(keys, cs, lo, hi, cs.len() as int),
        forall|p: int, q: int| 0 <= p < q < keys.len() ==> key_lt(keys[p]@, keys[q]@),
        0 <= t < ce_from(cs, i).len(),
    ensures
        key_le(keys[i - 1]@, ce_from(cs, i)[t].0),
    decreases cs.len() - i,
{
    let m = node_entries(cs[i]);
    lemma_wf_children_index(keys, cs, lo, hi, cs.len() as int, i);
    lemma_wf_entries_in_range(cs[i], child_lo(keys, lo, i), child_hi(keys, hi, i));
    if t < m.len() {
        assert(ce_from(cs, i)[t] == m[t]);
        assert(in_lower(Some(keys[i - 1]@), m[t].0));
    } else {
        assert(ce_from(cs, i)[t] == ce_from(cs, i + 1)[t - m.len()]);
        lemma_suffix_keys_above(keys, cs, lo, hi, i + 1, t - m.len());
        assert(key_lt(keys[i - 1]@, keys[i]@));
        lemma_key_cmp_trans(keys[i - 1]@, keys[i]@, ce_from(cs, i + 1)[t - m.len()].0);
    }
}

} // verus!

verus! {

// ---------------------------------------------------------------------------
// Insertion
// ---------------------------------------------------------------------------

/// `es` with `(k, v)` inserted after every entry whose key is at or below `k`.
pub open spec fn insert_entry(es: Seq<EntryV>, k: IndexKeyV, v: DocumentIdV) -> Seq<EntryV>
    decreases es.len(),
{
    if es.len() == 0 {
        seq![(k, v)]
    } else if key_cmp(es[0].0, k) <= 0 {
        seq![es[0]] + insert_entry(es.drop_first(), k, v)
    } else {
        seq![(k, v)] + es
    }
}

/// Inserting adds one entry.
pub proof fn lemma_insert_entry_len(es: Seq<EntryV>, k: IndexKeyV, v: DocumentIdV)
    ensures
        insert_entry(es, k, v).len() == es.len() + 1,
    decreases es.len(),
{
    if es.len() > 0 && key_cmp(es[0].0, k) <= 0 {
        lemma_insert_entry_len(es.drop_first(), k, v);
    }
}

/// Positional form: inserting lands between the entries at or below the key
/// and those above it.
pub proof fn lemma_insert_entry_at(es: Seq<EntryV>, k: IndexKeyV, v: DocumentIdV, pos: int)
    requires
        0 <= pos <= es.len(),
        forall|j: int| 0 <= j < pos ==> key_cmp((#[trigger] es[j]).0, k) <= 0,
        forall|j: int| pos <= j < es.len() ==> key_cmp(k, (#[trigger] es[j]).0) < 0,
    ensures
        insert_entry(es, k, v) == es.subrange(0, pos) + seq![(k, v)] + es.subrange(
            pos,
            es.len() as int,
        ),
    decreases pos,
{
    if pos == 0 {
        if es.len() > 0 {
            lemma_key_cmp_antisym(k, es[0].0);
        }
        assert(insert_entry(es, k, v) =~= es.subrange(0, 0) + seq![(k, v)] + es.subrange(
            0,
            es.len() as int,
        ));
    } else {
        let tail = es.drop_first();
        assert(forall|j: int| 0 <= j < pos - 1 ==> key_cmp((#[trigger] tail[j]).0, k) <= 0);
        assert(forall|j: int| pos - 1 <= j < tail.len() ==> key_cmp(
            k,
            (#[trigger] tail[j]).0,
        ) < 0);
        lemma_insert_entry_at(tail, k, v, pos - 1);
        assert(insert_entry(es, k, v) =~= es.subrange(0, pos) + seq![(k, v)] + es.subrange(
            pos,
            es.len() as int,
        ));
    }
}

/// Inserting within the middle segment of a concatenation stays there, when
/// the left segment is at or below the key and the right is above it.
pub proof fn lemma_insert_entry_concat(
    a: Seq<EntryV>,
    m: Seq<EntryV>,
    b: Seq<EntryV>,
    k: IndexKeyV,
    v: DocumentIdV,
)
    requires
        forall|j: int| 0 <= j < a.len() ==> key_cmp((#[trigger] a[j]).0, k) <= 0,
        forall|j: int| 0 <= j < b.len() ==> key_cmp(k, (#[trigger] b[j]).0) < 0,
    ensures
        insert_entry(a + m + b, k, v) == a + insert_entry(m, k, v) + b,
    decreases a.len() + m.len(),
{
    let all = a + m + b;
    if a.len() > 0 {
        assert(all[0] == a[0]);
        assert(all.drop_first() =~= a.drop_first() + m + b);
        assert(forall|j: int| 0 <= j < a.drop_first().len() ==> key_cmp(
            (#[trigger] a.drop_first()[j]).0,
            k,
        ) <= 0);
        lemma_insert_entry_concat(a.drop_first(), m, b, k, v);
        assert(insert_entry(all, k, v) =~= a + insert_entry(m, k, v) + b);
    } else if m.len() > 0 {
        assert(all[0] == m[0]);
        if key_cmp(m[0].0, k) <= 0 {
            assert(all.drop_first() =~= a + m.drop_first() + b);
            lemma_insert_entry_concat(a, m.drop_first(), b, k, v);
            assert(insert_entry(all, k, v) =~= a + insert_entry(m, k, v) + b);
        } else {
            assert(insert_entry(all, k, v) =~= a + insert_entry(m, k, v) + b);
        }
    } else {
        if b.len() > 0 {
            assert(all[0] == b[0]);
            lemma_key_cmp_antisym(k, b[0].0);
            assert(insert_entry(all, k, v) =~= a + insert_entry(m, k, v) + b);
        } else {
            assert(all.len() == 0);
            assert(insert_entry(all, k, v) =~= a + insert_entry(m, k, v) + b);
        }
    }
}

} // verus!

verus! {

/// Greatest number of keys or separators a node aims to hold (order 32).
pub const MAX_KEYS: usize = 31;

/// A position where adjacent keys differ strictly, suitable as a split
/// boundary; none need be found when every key is equivalent.
fn split_boundary(keys: &Vec<IndexKey>) -> (r: Option<usize>)
    requires
        keys@.len() >= 2,
    ensures
        r matches Some(m) ==> 1 <= m < keys@.len() && key_lt(keys@[m - 1]@, keys@[m as int]@),
{
    let half: usize = keys.len() / 2;
    let mut m: usize = half;
    if m == 0 {
        m = 1;
    }
    while m < keys.len()
        invariant
            1 <= m,
        decreases keys@.len() - m,
    {
        if keys[m - 1].lt_key(&keys[m]) {
            return Some(m);
        }
        m = m + 1;
    }
    let mut m2: usize = half;
    while m2 >= 1
        invariant
            m2 < keys@.len(),
        decreases m2,
    {
        if keys[m2 - 1].lt_key(&keys[m2]) {
            return Some(m2);
        }
        m2 = m2 - 1;
    }
    None
}

/// Insert `(key, id)` into a well-formed node; on overflow the node splits
/// and hands the separator and right sibling up to the caller.
#[verifier::rlimit(100)]
fn insert_into_node(
    node: Node,
    key: IndexKey,
    id: DocumentId,
    Ghost(lo): Ghost<Option<IndexKeyV>>,
    Ghost(hi): Ghost<Option<IndexKeyV>>,
) -> (r: (Node, Option<(IndexKey, Node)>))
    requires
        wf_node(node, lo, hi),
        in_range(lo, hi, key@),
    ensures
        match r.1 {
            None => wf_node(r.0, lo, hi) && node_entries(r.0) == insert_entry(
                node_entries(node),
                key@,
                id@,
            ),
            Some(sp) => {
                &&& wf_node(r.0, lo, Some(sp.0@))
                &&& wf_node(sp.1, Some(sp.0@), hi)
                &&& sep_in_range(lo, hi, sp.0@)
                &&& node_entries(r.0) + node_entries(sp.1) == insert_entry(
                    node_entries(node),
                    key@,
                    id@,
                )
            }
        },
    decreases node,
{
    let ghost n0 = node;
    let ghost kv = key@;
    let ghost idv = id@;
    match node {
        Node::Leaf { mut keys, mut values } => {
            let ghost keys0 = keys@;
            let ghost vals0 = values@;
            let ghost es0 = leaf_entries(keys0, vals0);
            let pos = find_child(&keys, &key);
            keys.insert(pos, key);
            values.insert(pos, id);
            let ghost keys1 = keys@;
            let ghost vals1 = values@;
            let ghost es1 = leaf_entries(keys1, vals1);
            proof {
                assert(keys1.len() == keys0.len() + 1);
                assert(forall|t: int| 0 <= t < pos ==> #[trigger] keys1[t] == keys0[t]);
                assert(keys1[pos as int]@ == kv);
                assert(forall|t: int| pos < t < keys1.len() ==> #[trigger] keys1[t] == keys0[t
                    - 1]);
                assert(forall|t: int| 0 <= t < pos ==> #[trigger] vals1[t] == vals0[t]);
                assert(vals1[pos as int]@ == idv);
                assert(forall|t: int| pos < t < vals1.len() ==> #[trigger] vals1[t] == vals0[t
                    - 1]);
                // every key from `pos` on is strictly above the new key
                assert forall|j: int| pos <= j < keys0.len() implies key_cmp(
                    kv,
                    (#[trigger] keys0[j])@,
                ) < 0 by {
                    if j > pos {
                        assert(key_le(keys0[pos as int]@, keys0[j]@));
                        lemma_key_cmp_trans(kv, keys0[pos as int]@, keys0[j]@);
                    }
                }
                assert(forall|j: int| 0 <= j < pos ==> key_cmp((#[trigger] es0[j]).0, kv) <= 0);
                assert(forall|j: int| pos <= j < es0.len() ==> key_cmp(
                    kv,
                    (#[trigger] es0[j]).0,
                ) < 0);
                lemma_insert_entry_at(es0, kv, idv, pos as int);
                assert(es1 =~= es0.subrange(0, pos as int) + seq![(kv, idv)] + es0.subrange(
                    pos as int,
                    es0.len() as int,
                ));
                // the new key run is sorted and in range
                assert forall|p: int, q: int| 0 <= p < q < keys1.len() implies key_le(
                    keys1[p]@,
                    keys1[q]@,
                ) by {
                    lemma_key_cmp_refl(kv);
                    if q == pos {
                        assert(keys1[p] == keys0[p]);
                    } else if p == pos {
                        assert(keys1[q] == keys0[q - 1]);
                    } else if p < pos && q > pos {
                        assert(keys1[p] == keys0[p] && keys1[q] == keys0[q - 1]);
                    } else if q < pos {
                        assert(keys1[p] == keys0[p] && keys1[q] == keys0[q]);
                    } else {
                        assert(keys1[p] == keys0[p - 1] && keys1[q] == keys0[q - 1]);
                    }
                }
                assert(forall|p: int| 0 <= p < keys1.len() ==> in_range(
                    lo,
                    hi,
                    (#[trigger] keys1[p])@,
                ));
            }
            if keys.len() <= MAX_KEYS {
                return (Node::Leaf { keys, values }, None);
            }
            let m = match split_boundary(&keys) {
                Some(m) => m,
                None => {
                    return (Node::Leaf { keys, values }, None);
                }
            };
            let right_keys = keys.split_off(m);
            let right_values = values.split_off(m);
            let sep = right_keys[0].clone();
            let ghost sepv = sep@;
            proof {
                assert(keys@ =~= keys1.subrange(0, m as int));
                assert(values@ =~= vals1.subrange(0, m as int));
                assert(right_keys@ =~= keys1.subrange(m as int, keys1.len() as int));
                assert(right_values@ =~= vals1.subrange(m as int, vals1.len() as int));
                assert(sepv == keys1[m as int]@);
                // the left keys are strictly below the separator
                assert forall|p: int| 0 <= p < m implies key_lt((#[trigger] keys1[p])@, sepv) by {
                    if p < m - 1 {
                        assert(key_le(keys1[p]@, keys1[m - 1]@));
                        assert(key_lt(keys1[m - 1]@, keys1[m as int]@));
                        lemma_key_cmp_trans(keys1[p]@, keys1[m - 1]@, sepv);
                    } else {
                        assert(key_lt(keys1[m - 1]@, keys1[m as int]@));
                    }
                }
                assert(es1 =~= leaf_entries(keys@, values@) + leaf_entries(
                    right_keys@,
                    right_values@,
                ));
                assert forall|p: int| 0 <= p < right_keys@.len() implies key_le(
                    sepv,
                    (#[trigger] right_keys@[p])@,
                ) by {
                    assert(right_keys@[p] == keys1[m + p]);
                    if p == 0 {
                        lemma_key_cmp_refl(sepv);
                    } else {
                        assert(key_le(keys1[m as int]@, keys1[m + p]@));
                    }
                }
                if lo is Some {
                    assert(in_range(lo, hi, keys1[m - 1]@));
                    assert(key_lt(keys1[m - 1]@, sepv));
                    lemma_key_cmp_trans(lo->Some_0, keys1[m - 1]@, sepv);
                }
            }
            (
                Node::Leaf { keys, values },
                Some((sep, Node::Leaf { keys: right_keys, values: right_values })),
            )
        }
        Node::Internal { mut keys, mut children } => {
            let ghost keys0 = keys@;
            let ghost cvec0 = children;
            let ghost cs0 = children@;
            let ghost es_all = children_entries(cs0, cs0.len() as int);
            let i = find_child(&keys, &key);
            let ghost wlo = child_lo(keys0, lo, i as int);
            let ghost whi = child_hi(keys0, hi, i as int);
            proof {
                lemma_wf_children_index(keys0, cs0, lo, hi, cs0.len() as int, i as int);
                assert(in_range(wlo, whi, kv));
                assert(decreases_to!(n0 => cvec0));
                assert(decreases_to!(cvec0 => cs0[i as int]));
            }
            let child = children.remove(i);
            let (newchild, split) = insert_into_node(child, key, id, Ghost(wlo), Ghost(whi));
            // the prefix of entries sits at or below the key, the suffix above
            proof {
                lemma_ce_decompose(cs0, i as int);
                lemma_ce_decompose(cs0, i + 1);
                lemma_wf_children_prefix(keys0, cs0, lo, hi, i as int, cs0.len() as int);
                lemma_wf_children_entries_sorted(keys0, cs0, lo, hi, i as int);
                assert forall|t: int| 0 <= t < children_entries(cs0, i as int).len()
                    implies key_cmp((#[trigger] children_entries(cs0, i as int)[t]).0, kv)
                    <= 0 by {
                    let a = children_entries(cs0, i as int);
                    assert(in_range(lo, child_hi(keys0, hi, i - 1), a[t].0));
                    assert(key_lt(a[t].0, keys0[i - 1]@));
                    assert(key_cmp(keys0[i - 1]@, kv) <= 0);
                    lemma_key_cmp_trans(a[t].0, keys0[i - 1]@, kv);
                }
                assert forall|t: int| 0 <= t < ce_from(cs0, i + 1).len() implies key_cmp(
                    kv,
                    (#[trigger] ce_from(cs0, i + 1)[t]).0,
                ) < 0 by {
                    lemma_suffix_keys_above(keys0, cs0, lo, hi, i + 1, t);
                    lemma_key_cmp_trans(kv, keys0[i as int]@, ce_from(cs0, i + 1)[t].0);
                }
                lemma_insert_entry_concat(
                    children_entries(cs0, i as int),
                    node_entries(cs0[i as int]),
                    ce_from(cs0, i + 1),
                    kv,
                    idv,
                );
                assert(es_all =~= children_entries(cs0, i as int) + node_entries(cs0[i as int])
                    + ce_from(cs0, i + 1));
            }
            children.insert(i, newchild);
            let ghost nc = children@[i as int];
            match split {
                None => {
                    proof {
                        let cs1 = children@;
                        assert(cs1 =~= cs0.update(i as int, nc));
                        assert(wf_node(nc, wlo, whi));
                        assert forall|k2: int| 0 <= k2 < cs1.len() implies wf_node(
                            #[trigger] cs1[k2],
                            child_lo(keys0, lo, k2),
                            child_hi(keys0, hi, k2),
                        ) by {
                            if k2 != i {
                                lemma_wf_children_index(
                                    keys0,
                                    cs0,
                                    lo,
                                    hi,
                                    cs0.len() as int,
                                    k2,
                                );
                            }
                        }
                        lemma_wf_children_build(keys0, cs1, lo, hi, cs1.len() as int);
                        lemma_ce_decompose(cs1, i as int);
                        lemma_ce_decompose(cs1, i + 1);
                        lemma_ce_prefix_congruent(cs0, cs1, i as int);
                        lemma_ce_from_congruent(cs0, cs1, i + 1, i + 1);
                        assert(children_entries(cs1, cs1.len() as int)
                            =~= children_entries(cs0, i as int)
                            + insert_entry(node_entries(cs0[i as int]), kv, idv)
                            + ce_from(cs0, i + 1));
                        assert(children_entries(cs1, cs1.len() as int)
                            == insert_entry(es_all, kv, idv));
                    }
                    (Node::Internal { keys, children }, None)
                }
                Some((sep, right)) => {
                    let ghost sepv = sep@;
                    let ghost rightn = right;
                    proof {
                        assert(children@.len() == cs0.len());
                        assert(children.len() == children@.len());
                        assert(i < children@.len() <= usize::MAX);
                    }
                    keys.insert(i, sep);
                    children.insert(i + 1, right);
                    proof {
                        lemma_insert_split_shape(
                            keys,
                            children,
                            keys0,
                            cs0,
                            nc,
                            rightn,
                            sepv,
                            lo,
                            hi,
                            i as int,
                            kv,
                            idv,
                        );
                    }
                    if keys.len() <= MAX_KEYS {
                        return (Node::Internal { keys, children }, None);
                    }
                    let ghost keys2 = keys@;
                    let ghost cs2 = children@;
                    let mid = keys.len() / 2;
                    let mut right_keys = keys.split_off(mid);
                    let sep2 = right_keys.remove(0);
                    let right_children = children.split_off(mid + 1);
                    let ghost sep2v = sep2@;
                    proof {
                        assert(keys@ =~= keys2.subrange(0, mid as int));
                        assert(right_keys@ =~= keys2.subrange(mid + 1, keys2.len() as int));
                        assert(children@ =~= cs2.subrange(0, mid + 1));
                        assert(right_children@ =~= cs2.subrange(mid + 1, cs2.len() as int));
                        assert(sep2v == keys2[mid as int]@);
                        lemma_internal_split_shape(
                            keys,
                            children,
                            right_keys,
                            right_children,
                            keys2,
                            cs2,
                            sep2v,
                            lo,
                            hi,
                            mid as int,
                        );
                    }
                    (
                        Node::Internal { keys, children },
                        Some((
                            sep2,
                            Node::Internal { keys: right_keys, children: right_children },
                        )),
                    )
                }
            }
        }
    }
}

/// After a child split: inserting the pushed-up separator at `i` and the
/// right sibling at `i + 1` keeps the node well formed, with the new pair
/// inserted into its entries.
#[verifier::rlimit(100)]
proof fn lemma_insert_split_shape(
    keysvec: Vec<IndexKey>,
    childrenvec: Vec<Node>,
    keys0: Seq<IndexKey>,
    cs0: Seq<Node>,
    nc: Node,
    rightn: Node,
    sepv: IndexKeyV,
    lo: Option<IndexKeyV>,
    hi: Option<IndexKeyV>,
    i: int,
    kv: IndexKeyV,
    idv: DocumentIdV,
)
    requires
        0 <= i <= keys0.len(),
        cs0.len() == keys0.len() + 1,
        keysvec@.len() == keys0.len() + 1,
        childrenvec@.len() == cs0.len() + 1,
        forall|t: int| 0 <= t < i ==> #[trigger] keysvec@[t] == keys0[t],
        keysvec@[i]@ == sepv,
        forall|t: int| i < t < keysvec@.len() ==> #[trigger] keysvec@[t] == keys0[t - 1],
        forall|t: int| 0 <= t < i ==> #[trigger] childrenvec@[t] == cs0[t],
        childrenvec@[i] == nc,
        childrenvec@[i + 1] == rightn,
        forall|t: int| i + 1 < t < childrenvec@.len() ==> #[trigger] childrenvec@[t] == cs0[t
            - 1],
        keys0.len() >= 1,
        forall|p: int, q: int| 0 <= p < q < keys0.len() ==> key_lt(keys0[p]@, keys0[q]@),
        forall|p: int| 0 <= p < keys0.len() ==> sep_in_range(lo, hi, keys0[p]@),
        wf_children(keys0, cs0, lo, hi, cs0.len() as int),
        wf_node(nc, child_lo(keys0, lo, i), Some(sepv)),
        wf_node(rightn, Some(sepv), child_hi(keys0, hi, i)),
        sep_in_range(child_lo(keys0, lo, i), child_hi(keys0, hi, i), sepv),
        node_entries(nc) + node_entries(rightn) == insert_entry(
            node_entries(cs0[i]),
            kv,
            idv,
        ),
        insert_entry(children_entries(cs0, cs0.len() as int), kv, idv) == children_entries(
            cs0,
            i,
        ) + insert_entry(node_entries(cs0[i]), kv, idv) + ce_from(cs0, i + 1),
    ensures
        wf_node(Node::Internal { keys: keysvec, children: childrenvec }, lo, hi),
        node_entries(Node::Internal { keys: keysvec, children: childrenvec }) == insert_entry(
            children_entries(cs0, cs0.len() as int),
            kv,
            idv,
        ),
{
    let keys2 = keysvec@;
    let cs2 = childrenvec@;
    let n2 = cs2.len() as int;
    // the new separator sits strictly between its neighbours
    assert(i > 0 ==> key_lt(keys0[i - 1]@, sepv));
    assert(i < keys0.len() ==> key_lt(sepv, keys0[i]@));
    assert forall|p: int, q: int| 0 <= p < q < keys2.len() implies key_lt(
        keys2[p]@,
        keys2[q]@,
    ) by {
        if q == i {
            assert(keys2[p] == keys0[p]);
            if p < i - 1 {
                assert(key_lt(keys0[p]@, keys0[i - 1]@));
                lemma_key_cmp_trans(keys0[p]@, keys0[i - 1]@, sepv);
            }
        } else if p == i {
            assert(keys2[q] == keys0[q - 1]);
            if q - 1 > i {
                assert(key_lt(keys0[i]@, keys0[q - 1]@));
                lemma_key_cmp_trans(sepv, keys0[i]@, keys0[q - 1]@);
            }
        } else if p < i && q > i {
            assert(keys2[p] == keys0[p] && keys2[q] == keys0[q - 1]);
            if p == q - 1 {
                assert(false);
            }
        } else if q < i {
            assert(keys2[p] == keys0[p] && keys2[q] == keys0[q]);
        } else {
            assert(keys2[p] == keys0[p - 1] && keys2[q] == keys0[q - 1]);
        }
    }
    assert forall|p: int| 0 <= p < keys2.len() implies sep_in_range(
        lo,
        hi,
        (#[trigger] keys2[p])@,
    ) by {
        if p == i {
            if i > 0 {
                if lo is Some {
                    lemma_key_cmp_trans(lo->Some_0, keys0[i - 1]@, sepv);
                }
            }
            if i < keys0.len() {
                if hi is Some {
                    lemma_key_cmp_trans(sepv, keys0[i]@, hi->Some_0);
                }
            }
        } else if p < i {
            assert(keys2[p] == keys0[p]);
        } else {
            assert(keys2[p] == keys0[p - 1]);
        }
    }
    assert forall|k2: int| 0 <= k2 < n2 implies wf_node(
        #[trigger] cs2[k2],
        child_lo(keys2, lo, k2),
        child_hi(keys2, hi, k2),
    ) by {
        if k2 < i {
            lemma_wf_children_index(keys0, cs0, lo, hi, cs0.len() as int, k2);
            assert(cs2[k2] == cs0[k2]);
            assert(child_lo(keys2, lo, k2) == child_lo(keys0, lo, k2));
            assert(child_hi(keys2, hi, k2) == child_hi(keys0, hi, k2));
        } else if k2 == i {
            assert(cs2[k2] == nc);
            assert(child_lo(keys2, lo, i) == child_lo(keys0, lo, i));
            assert(child_hi(keys2, hi, i) == Some(sepv));
        } else if k2 == i + 1 {
            assert(cs2[k2] == rightn);
            assert(child_lo(keys2, lo, i + 1) == Some(sepv));
            assert(child_hi(keys2, hi, i + 1) == child_hi(keys0, hi, i));
        } else {
            lemma_wf_children_index(keys0, cs0, lo, hi, cs0.len() as int, k2 - 1);
            assert(cs2[k2] == cs0[k2 - 1]);
            assert(child_lo(keys2, lo, k2) == child_lo(keys0, lo, k2 - 1));
            assert(child_hi(keys2, hi, k2) == child_hi(keys0, hi, k2 - 1));
        }
    }
    lemma_wf_children_build(keys2, cs2, lo, hi, n2);
    // entries
    lemma_ce_decompose(cs2, i);
    lemma_ce_decompose(cs2, i + 2);
    lemma_ce_prefix_congruent(cs0, cs2, i);
    assert(forall|t: int| 0 <= t < cs0.len() - (i + 1) ==> #[trigger] cs2[(i + 2) + t] == cs0[(i
        + 1) + t]);
    lemma_ce_from_congruent(cs0, cs2, i + 1, i + 2);
    assert(children_entries(cs2, i + 1) =~= children_entries(cs2, i) + node_entries(nc));
    assert(children_entries(cs2, i + 2) =~= children_entries(cs2, i) + node_entries(nc)
        + node_entries(rightn));
    assert(children_entries(cs2, n2) =~= children_entries(cs2, i + 2) + ce_from(cs2, i + 2));
    assert(children_entries(cs2, n2) =~= children_entries(cs0, i) + (node_entries(nc)
        + node_entries(rightn)) + ce_from(cs0, i + 1));
    assert(children_entries(cs2, n2) =~= insert_entry(
        children_entries(cs0, cs0.len() as int),
        kv,
        idv,
    ));
}

/// Splitting an overfull internal node at `mid` yields two well-formed
/// halves around the pushed-up separator, with the entries preserved.
#[verifier::rlimit(100)]
proof fn lemma_internal_split_shape(
    leftkeys: Vec<IndexKey>,
    leftcs: Vec<Node>,
    rightkeys: Vec<IndexKey>,
    rightcs: Vec<Node>,
    keys2: Seq<IndexKey>,
    cs2: Seq<Node>,
    sep2v: IndexKeyV,
    lo: Option<IndexKeyV>,
    hi: Option<IndexKeyV>,
    mid: int,
)
    requires
        1 <= mid <= keys2.len() - 2,
        cs2.len() == keys2.len() + 1,
        leftkeys@ == keys2.subrange(0, mid),
        rightkeys@ == keys2.subrange(mid + 1, keys2.len() as int),
        sep2v == keys2[mid]@,
        leftcs@ == cs2.subrange(0, mid + 1),
        rightcs@ == cs2.subrange(mid + 1, cs2.len() as int),
        forall|p: int, q: int| 0 <= p < q < keys2.len() ==> key_lt(keys2[p]@, keys2[q]@),
        forall|p: int| 0 <= p < keys2.len() ==> sep_in_range(lo, hi, keys2[p]@),
        wf_children(keys2, cs2, lo, hi, cs2.len() as int),
    ensures
        wf_node(Node::Internal { keys: leftkeys, children: leftcs }, lo, Some(sep2v)),
        wf_node(Node::Internal { keys: rightkeys, children: rightcs }, Some(sep2v), hi),
        sep_in_range(lo, hi, sep2v),
        node_entries(Node::Internal { keys: leftkeys, children: leftcs }) + node_entries(
            Node::Internal { keys: rightkeys, children: rightcs },
        ) == children_entries(cs2, cs2.len() as int),
{
    let lk = leftkeys@;
    let rk = rightkeys@;
    let lc = leftcs@;
    let rc = rightcs@;
    // left half
    assert forall|p: int| 0 <= p < lk.len() implies sep_in_range(
        lo,
        Some(sep2v),
        (#[trigger] lk[p])@,
    ) by {
        assert(lk[p] == keys2[p]);
        assert(key_lt(keys2[p]@, keys2[mid]@));
    }
    assert forall|k2: int| 0 <= k2 < lc.len() implies wf_node(
        #[trigger] lc[k2],
        child_lo(lk, lo, k2),
        child_hi(lk, Some(sep2v), k2),
    ) by {
        lemma_wf_children_index(keys2, cs2, lo, hi, cs2.len() as int, k2);
        assert(lc[k2] == cs2[k2]);
        assert(child_lo(lk, lo, k2) == child_lo(keys2, lo, k2));
        assert(child_hi(lk, Some(sep2v), k2) == child_hi(keys2, hi, k2));
    }
    lemma_wf_children_build(lk, lc, lo, Some(sep2v), lc.len() as int);
    // right half
    assert forall|p: int| 0 <= p < rk.len() implies sep_in_range(
        Some(sep2v),
        hi,
        (#[trigger] rk[p])@,
    ) by {
        assert(rk[p] == keys2[mid + 1 + p]);
        assert(key_lt(keys2[mid]@, keys2[mid + 1 + p]@));
    }
    assert forall|k2: int| 0 <= k2 < rc.len() implies wf_node(
        #[trigger] rc[k2],
        child_lo(rk, Some(sep2v), k2),
        child_hi(rk, hi, k2),
    ) by {
        lemma_wf_children_index(keys2, cs2, lo, hi, cs2.len() as int, mid + 1 + k2);
        assert(rc[k2] == cs2[mid + 1 + k2]);
        assert(child_lo(rk, Some(sep2v), k2) == child_lo(keys2, lo, mid + 1 + k2));
        assert(child_hi(rk, hi, k2) == child_hi(keys2, hi, mid + 1 + k2));
    }
    lemma_wf_children_build(rk, rc, Some(sep2v), hi, rc.len() as int);
    // entries
    lemma_ce_decompose(cs2, mid + 1);
    lemma_ce_prefix_congruent(cs2, lc, mid + 1);
    assert(forall|t: int| 0 <= t < cs2.len() - (mid + 1) ==> #[trigger] rc[0 + t] == cs2[(mid
        + 1) + t]);
    lemma_ce_from_congruent(cs2, rc, mid + 1, 0);
    lemma_ce_decompose(rc, 0);
    assert(children_entries(rc, rc.len() as int) =~= ce_from(rc, 0));
    assert(children_entries(lc, lc.len() as int) + children_entries(rc, rc.len() as int)
        =~= children_entries(cs2, cs2.len() as int));
}

} // verus!

verus! {

// ---------------------------------------------------------------------------
// Deletion (lazy: no rebalancing)
// ---------------------------------------------------------------------------

/// Some entry carries this exact pair (key equivalence, id equality).
pub open spec fn has_pair(es: Seq<EntryV>, k: IndexKeyV, id: DocumentIdV) -> bool {
    exists|t: int| 0 <= t < es.len() && key_cmp((#[trigger] es[t]).0, k) == 0 && es[t].1 == id
}

/// `es` with the first entry matching `(k, id)` removed.
pub open spec fn remove_pair(es: Seq<EntryV>, k: IndexKeyV, id: DocumentIdV) -> Seq<EntryV>
    decreases es.len(),
{
    if es.len() == 0 {
        es
    } else if key_cmp(es[0].0, k) == 0 && es[0].1 == id {
        es.drop_first()
    } else {
        seq![es[0]] + remove_pair(es.drop_first(), k, id)
    }
}

/// Removing from the middle segment stays there when the outer segments
/// hold no matching pair.
proof fn lemma_remove_pair_concat(
    a: Seq<EntryV>,
    m: Seq<EntryV>,
    b: Seq<EntryV>,
    k: IndexKeyV,
    id: DocumentIdV,
)
    requires
        forall|j: int| 0 <= j < a.len() ==> key_cmp((#[trigger] a[j]).0, k) != 0,
        forall|j: int| 0 <= j < b.len() ==> key_cmp((#[trigger] b[j]).0, k) != 0,
    ensures
        remove_pair(a + m + b, k, id) == a + remove_pair(m, k, id) + b,
        has_pair(a + m + b, k, id) == has_pair(m, k, id),
    decreases a.len() + m.len() + b.len(),
{
    let all = a + m + b;
    if a.len() > 0 {
        assert(all[0] == a[0]);
        assert(all.drop_first() =~= a.drop_first() + m + b);
        assert(forall|j: int| 0 <= j < a.drop_first().len() ==> key_cmp(
            (#[trigger] a.drop_first()[j]).0,
            k,
        ) != 0);
        lemma_remove_pair_concat(a.drop_first(), m, b, k, id);
        assert(remove_pair(all, k, id) =~= a + remove_pair(m, k, id) + b);
        if has_pair(all, k, id) {
            let t = choose|t: int| 0 <= t < all.len() && key_cmp(
                (#[trigger] all[t]).0,
                k,
            ) == 0 && all[t].1 == id;
            assert(all.drop_first()[t - 1] == all[t]);
        }
        if has_pair(all.drop_first(), k, id) {
            let t = choose|t: int| 0 <= t < all.drop_first().len() && key_cmp(
                (#[trigger] all.drop_first()[t]).0,
                k,
            ) == 0 && all.drop_first()[t].1 == id;
            assert(all[t + 1] == all.drop_first()[t]);
        }
    } else if m.len() > 0 {
        assert(all[0] == m[0]);
        if key_cmp(m[0].0, k) == 0 && m[0].1 == id {
            assert(remove_pair(all, k, id) =~= a + remove_pair(m, k, id) + b);
            assert(has_pair(m, k, id));
        } else {
            assert(all.drop_first() =~= a + m.drop_first() + b);
            lemma_remove_pair_concat(a, m.drop_first(), b, k, id);
            assert(remove_pair(all, k, id) =~= a + remove_pair(m, k, id) + b);
            if has_pair(all, k, id) {
                let t = choose|t: int| 0 <= t < all.len() && key_cmp(
                    (#[trigger] all[t]).0,
                    k,
                ) == 0 && all[t].1 == id;
                assert(all.drop_first()[t - 1] == all[t]);
            }
            if has_pair(m.drop_first(), k, id) {
                let t = choose|t: int| 0 <= t < m.drop_first().len() && key_cmp(
                    (#[trigger] m.drop_first()[t]).0,
                    k,
                ) == 0 && m.drop_first()[t].1 == id;
                assert(m[t + 1] == m.drop_first()[t]);
            }
            if has_pair(m, k, id) {
                let t = choose|t: int| 0 <= t < m.len() && key_cmp(
                    (#[trigger] m[t]).0,
                    k,
                ) == 0 && m[t].1 == id;
                assert(t > 0);
                assert(m.drop_first()[t - 1] == m[t]);
            }
        }
    } else {
        assert(all =~= b);
        assert(remove_pair(b, k, id) =~= b) by {
            lemma_remove_pair_absent(b, k, id);
        }
        assert(remove_pair(all, k, id) =~= a + remove_pair(m, k, id) + b);
        if has_pair(all, k, id) {
            let t = choose|t: int| 0 <= t < all.len() && key_cmp(
                (#[trigger] all[t]).0,
                k,
            ) == 0 && all[t].1 == id;
            assert(all[t] == b[t]);
        }
    }
}

/// Removing a pair that is not there changes nothing.
proof fn lemma_remove_pair_absent(es: Seq<EntryV>, k: IndexKeyV, id: DocumentIdV)
    requires
        forall|j: int| 0 <= j < es.len() ==> key_cmp((#[trigger] es[j]).0, k) != 0,
    ensures
        remove_pair(es, k, id) == es,
    decreases es.len(),
{
    if es.len() > 0 {
        assert(forall|j: int| 0 <= j < es.drop_first().len() ==> key_cmp(
            (#[trigger] es.drop_first()[j]).0,
            k,
        ) != 0);
        lemma_remove_pair_absent(es.drop_first(), k, id);
        assert(remove_pair(es, k, id) =~= es);
    }
}

/// Positional form of removal at the first matching position.
proof fn lemma_remove_pair_at(es: Seq<EntryV>, k: IndexKeyV, id: DocumentIdV, t: int)
    requires
        0 <= t < es.len(),
        key_cmp(es[t].0, k) == 0,
        es[t].1 == id,
        forall|j: int| 0 <= j < t ==> !(key_cmp((#[trigger] es[j]).0, k) == 0 && es[j].1 == id),
    ensures
        remove_pair(es, k, id) == es.subrange(0, t) + es.subrange(t + 1, es.len() as int),
        has_pair(es, k, id),
    decreases t,
{
    if t == 0 {
        assert(remove_pair(es, k, id) =~= es.subrange(0, 0) + es.subrange(1, es.len() as int));
    } else {
        let tail = es.drop_first();
        assert(tail[t - 1] == es[t]);
        assert(forall|j: int| 0 <= j < t - 1 ==> #[trigger] tail[j] == es[j + 1]);
        lemma_remove_pair_at(tail, k, id, t - 1);
        assert(remove_pair(es, k, id) =~= es.subrange(0, t) + es.subrange(
            t + 1,
            es.len() as int,
        ));
    }
}

/// Remove the first entry matching `(key, id)` from a well-formed node.
#[verifier::rlimit(100)]
fn delete_from_node(
    node: Node,
    key: &IndexKey,
    id: &DocumentId,
    Ghost(lo): Ghost<Option<IndexKeyV>>,
    Ghost(hi): Ghost<Option<IndexKeyV>>,
) -> (r: (Node, bool))
    requires
        wf_node(node, lo, hi),
    ensures
        wf_node(r.0, lo, hi),
        node_entries(r.0) == remove_pair(node_entries(node), key@, id@),
        r.1 == has_pair(node_entries(node), key@, id@),
    decreases node,
{
    let ghost n0 = node;
    let ghost kv = key@;
    let ghost idv = id@;
    match node {
        Node::Leaf { mut keys, mut values } => {
            let ghost keys0 = keys@;
            let ghost vals0 = values@;
            let ghost es0 = leaf_entries(keys0, vals0);
            let mut t: usize = 0;
            while t < keys.len()
                invariant
                    t <= keys0.len(),
                    kv == key@,
                    idv == id@,
                    keys@ == keys0,
                    values@ == vals0,
                    keys0.len() == vals0.len(),
                    es0 == leaf_entries(keys0, vals0),
                    es0 == node_entries(n0),
                    n0 == node,
                    forall|p: int, q: int| 0 <= p < q < keys0.len() ==> key_le(
                        (#[trigger] keys0[p])@,
                        (#[trigger] keys0[q])@,
                    ),
                    forall|p: int| 0 <= p < keys0.len() ==> in_range(
                        lo,
                        hi,
                        (#[trigger] keys0[p])@,
                    ),
                    forall|j: int| 0 <= j < t ==> !(key_cmp((#[trigger] es0[j]).0, kv) == 0
                        && es0[j].1 == idv),
                decreases keys0.len() - t,
            {
                let c = keys[t].cmp_key(key);
                let same_id = if c == 0 { values[t].eq_id(id) } else { false };
                if c == 0 && same_id {
                    proof {
                        assert(es0[t as int] == (keys0[t as int]@, vals0[t as int]@));
                        lemma_remove_pair_at(es0, kv, idv, t as int);
                    }
                    keys.remove(t);
                    values.remove(t);
                    proof {
                        assert(keys@ =~= keys0.subrange(0, t as int) + keys0.subrange(
                            t + 1,
                            keys0.len() as int,
                        ));
                        assert(values@ =~= vals0.subrange(0, t as int) + vals0.subrange(
                            t + 1,
                            vals0.len() as int,
                        ));
                        assert(leaf_entries(keys@, values@) =~= es0.subrange(0, t as int)
                            + es0.subrange(t + 1, es0.len() as int));
                        assert forall|p: int, q: int| 0 <= p < q < keys@.len() implies key_le(
                            (#[trigger] keys@[p])@,
                            (#[trigger] keys@[q])@,
                        ) by {
                            if p < t && q < t {
                                assert(keys@[p] == keys0[p] && keys@[q] == keys0[q]);
                            } else if p < t {
                                assert(keys@[p] == keys0[p] && keys@[q] == keys0[q + 1]);
                            } else {
                                assert(keys@[p] == keys0[p + 1] && keys@[q] == keys0[q + 1]);
                            }
                        }
                        assert(forall|p: int| 0 <= p < keys@.len() ==> in_range(
                            lo,
                            hi,
                            (#[trigger] keys@[p])@,
                        ));
                    }
                    return (Node::Leaf { keys, values }, true);
                }
                proof {
                    assert(es0[t as int] == (keys0[t as int]@, vals0[t as int]@));
                    assert(!(key_cmp(es0[t as int].0, kv) == 0 && es0[t as int].1 == idv));
                }
                t = t + 1;
            }
            proof {
                assert(forall|j: int| 0 <= j < es0.len() ==> !(key_cmp(
                    (#[trigger] es0[j]).0,
                    kv,
                ) == 0 && es0[j].1 == idv));
                assert(!has_pair(es0, kv, idv));
                assert(forall|j: int| 0 <= j < es0.len() ==> key_cmp(
                    (#[trigger] es0[j]).0,
                    kv,
                ) != 0 || es0[j].1 != idv);
                lemma_remove_pair_matchless(es0, kv, idv);
            }
            (Node::Leaf { keys, values }, false)
        }
        Node::Internal { mut keys, mut children } => {
            let ghost keys0 = keys@;
            let ghost cvec0 = children;
            let ghost cs0 = children@;
            let ghost es_all = children_entries(cs0, cs0.len() as int);
            let i = find_child(&keys, key);
            let ghost wlo = child_lo(keys0, lo, i as int);
            let ghost whi = child_hi(keys0, hi, i as int);
            proof {
                lemma_wf_children_index(keys0, cs0, lo, hi, cs0.len() as int, i as int);
                assert(decreases_to!(n0 => cvec0));
                assert(decreases_to!(cvec0 => cs0[i as int]));
            }
            let child = children.remove(i);
            let (newchild, found) = delete_from_node(child, key, id, Ghost(wlo), Ghost(whi));
            children.insert(i, newchild);
            let ghost nc = children@[i as int];
            proof {
                lemma_ce_decompose(cs0, i as int);
                lemma_ce_decompose(cs0, i + 1);
                lemma_wf_children_prefix(keys0, cs0, lo, hi, i as int, cs0.len() as int);
                lemma_wf_children_entries_sorted(keys0, cs0, lo, hi, i as int);
                assert forall|t: int| 0 <= t < children_entries(cs0, i as int).len()
                    implies key_cmp((#[trigger] children_entries(cs0, i as int)[t]).0, kv)
                    != 0 by {
                    let a = children_entries(cs0, i as int);
                    assert(in_range(lo, child_hi(keys0, hi, i - 1), a[t].0));
                    assert(key_lt(a[t].0, keys0[i - 1]@));
                    assert(key_cmp(keys0[i - 1]@, kv) <= 0);
                    lemma_key_cmp_trans(a[t].0, keys0[i - 1]@, kv);
                }
                assert forall|t: int| 0 <= t < ce_from(cs0, i + 1).len() implies key_cmp(
                    (#[trigger] ce_from(cs0, i + 1)[t]).0,
                    kv,
                ) != 0 by {
                    lemma_suffix_keys_above(keys0, cs0, lo, hi, i + 1, t);
                    lemma_key_cmp_trans(kv, keys0[i as int]@, ce_from(cs0, i + 1)[t].0);
                    lemma_key_cmp_antisym(kv, ce_from(cs0, i + 1)[t].0);
                }
                lemma_remove_pair_concat(
                    children_entries(cs0, i as int),
                    node_entries(cs0[i as int]),
                    ce_from(cs0, i + 1),
                    kv,
                    idv,
                );
                assert(es_all =~= children_entries(cs0, i as int) + node_entries(cs0[i as int])
                    + ce_from(cs0, i + 1));
                let cs1 = children@;
                assert(cs1 =~= cs0.update(i as int, nc));
                assert forall|k2: int| 0 <= k2 < cs1.len() implies wf_node(
                    #[trigger] cs1[k2],
                    child_lo(keys0, lo, k2),
                    child_hi(keys0, hi, k2),
                ) by {
                    if k2 != i {
                        lemma_wf_children_index(keys0, cs0, lo, hi, cs0.len() as int, k2);
                    }
                }
                lemma_wf_children_build(keys0, cs1, lo, hi, cs1.len() as int);
                lemma_ce_decompose(cs1, i as int);
                lemma_ce_decompose(cs1, i + 1);
                lemma_ce_prefix_congruent(cs0, cs1, i as int);
                lemma_ce_from_congruent(cs0, cs1, i + 1, i + 1);
                assert(children_entries(cs1, cs1.len() as int)
                    =~= children_entries(cs0, i as int)
                    + remove_pair(node_entries(cs0[i as int]), kv, idv)
                    + ce_from(cs0, i + 1));
                assert(children_entries(cs1, cs1.len() as int)
                    == remove_pair(es_all, kv, idv));
            }
            (Node::Internal { keys, children }, found)
        }
    }
}

/// When no entry key matches, there is no pair and removal is the identity.
proof fn lemma_remove_pair_matchless(es: Seq<EntryV>, k: IndexKeyV, id: DocumentIdV)
    requires
        forall|j: int| 0 <= j < es.len() ==> !(key_cmp((#[trigger] es[j]).0, k) == 0 && es[j].1
            == id),
    ensures
        remove_pair(es, k, id) == es,
        !has_pair(es, k, id),
    decreases es.len(),
{
    if es.len() > 0 {
        assert(forall|j: int| 0 <= j < es.drop_first().len() ==> #[trigger] es.drop_first()[j]
            == es[j + 1]);
        lemma_remove_pair_matchless(es.drop_first(), k, id);
        assert(remove_pair(es, k, id) =~= es);
    }
}

} // verus!

verus! {

// ---------------------------------------------------------------------------
// Range scan
// ---------------------------------------------------------------------------

/// The key lies within the scan window.
pub open spec fn in_window(
    k: IndexKeyV,
    start: IndexKeyV,
    end: IndexKeyV,
    inc_start: bool,
    inc_end: bool,
) -> bool {
    &&& if inc_start {
        key_le(start, k)
    } else {
        key_lt(start, k)
    }
    &&& if inc_end {
        key_le(k, end)
    } else {
        key_lt(k, end)
    }
}

/// The ids of the entries within the window, in entry order.
pub open spec fn window_ids(
    es: Seq<EntryV>,
    start: IndexKeyV,
    end: IndexKeyV,
    inc_start: bool,
    inc_end: bool,
) -> Seq<DocumentIdV>
    decreases es.len(),
{
    if es.len() == 0 {
        Seq::empty()
    } else {
        let pre = window_ids(es.drop_last(), start, end, inc_start, inc_end);
        if in_window(es.last().0, start, end, inc_start, inc_end) {
            pre.push(es.last().1)
        } else {
            pre
        }
    }
}

/// Window ids distribute over concatenation.
proof fn lemma_window_ids_concat(
    a: Seq<EntryV>,
    b: Seq<EntryV>,
    start: IndexKeyV,
    end: IndexKeyV,
    inc_start: bool,
    inc_end: bool,
)
    ensures
        window_ids(a + b, start, end, inc_start, inc_end) == window_ids(
            a,
            start,
            end,
            inc_start,
            inc_end,
        ) + window_ids(b, start, end, inc_start, inc_end),
    decreases b.len(),
{
    if b.len() == 0 {
        assert(a + b =~= a);
        assert(window_ids(a, start, end, inc_start, inc_end) + window_ids(
            b,
            start,
            end,
            inc_start,
            inc_end,
        ) =~= window_ids(a, start, end, inc_start, inc_end));
    } else {
        assert((a + b).drop_last() =~= a + b.drop_last());
        assert((a + b).last() == b.last());
        lemma_window_ids_concat(a, b.drop_last(), start, end, inc_start, inc_end);
        if in_window(b.last().0, start, end, inc_start, inc_end) {
            assert(window_ids(a + b, start, end, inc_start, inc_end)
                =~= window_ids(a, start, end, inc_start, inc_end) + window_ids(
                b,
                start,
                end,
                inc_start,
                inc_end,
            ));
        } else {
            assert(window_ids(a + b, start, end, inc_start, inc_end)
                =~= window_ids(a, start, end, inc_start, inc_end) + window_ids(
                b,
                start,
                end,
                inc_start,
                inc_end,
            ));
        }
    }
}

/// Models of a run of ids.
pub open spec fn doc_views(s: Seq<DocumentId>) -> Seq<DocumentIdV> {
    Seq::new(s.len(), |i: int| s[i]@)
}

/// Collect the ids of the in-window entries of a well-formed node.
fn range_scan_node(
    node: &Node,
    start: &IndexKey,
    end: &IndexKey,
    inc_start: bool,
    inc_end: bool,
    out: &mut Vec<DocumentId>,
    Ghost(lo): Ghost<Option<IndexKeyV>>,
    Ghost(hi): Ghost<Option<IndexKeyV>>,
)
    requires
        wf_node(*node, lo, hi),
    ensures
        doc_views(final(out)@) == doc_views(old(out)@) + window_ids(
            node_entries(*node),
            start@,
            end@,
            inc_start,
            inc_end,
        ),
    decreases node,
{
    let ghost sv = start@;
    let ghost ev = end@;
    match node {
        Node::Leaf { keys, values } => {
            let ghost es = leaf_entries(keys@, values@);
            let ghost base = out@;
            let mut t: usize = 0;
            while t < keys.len()
                invariant
                    t <= keys@.len(),
                    sv == start@,
                    ev == end@,
                    keys@.len() == values@.len(),
                    es == leaf_entries(keys@, values@),
                    doc_views(out@) == doc_views(base) + window_ids(
                        es.subrange(0, t as int),
                        sv,
                        ev,
                        inc_start,
                        inc_end,
                    ),
                decreases keys@.len() - t,
            {
                proof {
                    assert(es.subrange(0, t + 1).drop_last() =~= es.subrange(0, t as int));
                    assert(es.subrange(0, t + 1).last() == es[t as int]);
                    assert(es[t as int] == (keys@[t as int]@, values@[t as int]@));
                }
                let lower_ok = if inc_start {
                    start.le_key(&keys[t])
                } else {
                    start.lt_key(&keys[t])
                };
                let upper_ok = if inc_end {
                    keys[t].le_key(end)
                } else {
                    keys[t].lt_key(end)
                };
                if lower_ok && upper_ok {
                    let ghost preout = out@;
                    out.push(values[t].clone());
                    proof {
                        assert(doc_views(out@) =~= doc_views(preout).push(values@[t as int]@));
                    }
                }
                proof {
                    assert(doc_views(out@) =~= doc_views(base) + window_ids(
                        es.subrange(0, t + 1),
                        sv,
                        ev,
                        inc_start,
                        inc_end,
                    ));
                }
                t = t + 1;
            }
            proof {
                assert(es.subrange(0, es.len() as int) =~= es);
            }
        }
        Node::Internal { keys, children } => {
            let ghost cs = children@;
            let ghost base = out@;
            let mut j: usize = 0;
            while j < children.len()
                invariant
                    j <= cs.len(),
                    sv == start@,
                    ev == end@,
                    cs == children@,
                    wf_node(*node, lo, hi),
                    node matches Node::Internal { keys: k2, children: c2 } && c2@ == cs
                        && k2@ == keys@,
                    doc_views(out@) == doc_views(base) + window_ids(
                        children_entries(cs, j as int),
                        sv,
                        ev,
                        inc_start,
                        inc_end,
                    ),
                decreases cs.len() - j,
            {
                proof {
                    assert(decreases_to!(*children => cs[j as int]));
                    assert(decreases_to!(*node => cs[j as int]));
                    lemma_wf_children_index(keys@, cs, lo, hi, cs.len() as int, j as int);
                }
                let ghost preout = out@;
                range_scan_node(
                    &children[j],
                    start,
                    end,
                    inc_start,
                    inc_end,
                    out,
                    Ghost(child_lo(keys@, lo, j as int)),
                    Ghost(child_hi(keys@, hi, j as int)),
                );
                proof {
                    lemma_window_ids_concat(
                        children_entries(cs, j as int),
                        node_entries(cs[j as int]),
                        sv,
                        ev,
                        inc_start,
                        inc_end,
                    );
                    assert(doc_views(out@) =~= doc_views(base) + window_ids(
                        children_entries(cs, j + 1),
                        sv,
                        ev,
                        inc_start,
                        inc_end,
                    ));
                }
                j = j + 1;
            }
        }
    }
}

} // verus!

verus! {

/// No two entries carry equivalent keys.
pub open spec fn keys_distinct(es: Seq<EntryV>) -> bool {
    forall|p: int, q: int| 0 <= p < q < es.len() ==> key_cmp(
        (#[trigger] es[p]).0,
        (#[trigger] es[q]).0,
    ) != 0
}

/// Inserting a fresh key keeps keys distinct.
proof fn lemma_insert_entry_distinct(es: Seq<EntryV>, k: IndexKeyV, v: DocumentIdV)
    requires
        keys_distinct(es),
        !has_key(es, k),
    ensures
        keys_distinct(insert_entry(es, k, v)),
        forall|t: int| 0 <= t < insert_entry(es, k, v).len()
            ==> (#[trigger] insert_entry(es, k, v)[t] == (k, v) || exists|j: int|
            0 <= j < es.len() && insert_entry(es, k, v)[t] == es[j]),
    decreases es.len(),
{
    let out = insert_entry(es, k, v);
    if es.len() == 0 {
        assert(out =~= seq![(k, v)]);
    } else if key_cmp(es[0].0, k) <= 0 {
        let tail = es.drop_first();
        assert(forall|j: int| 0 <= j < tail.len() ==> #[trigger] tail[j] == es[j + 1]);
        assert(!has_key(tail, k)) by {
            if has_key(tail, k) {
                let t = choose|t: int| 0 <= t < tail.len() && key_cmp(
                    (#[trigger] tail[t]).0,
                    k,
                ) == 0;
                assert(es[t + 1] == tail[t]);
            }
        }
        lemma_insert_entry_distinct(tail, k, v);
        let sub = insert_entry(tail, k, v);
        assert(out == seq![es[0]] + sub);
        assert forall|t: int| 0 <= t < out.len() implies (#[trigger] out[t] == (k, v) || exists|
            j: int,
        | 0 <= j < es.len() && out[t] == es[j]) by {
            if t == 0 {
                assert(out[0] == es[0]);
            } else {
                assert(out[t] == sub[t - 1]);
                if sub[t - 1] == (k, v) {
                } else {
                    let j = choose|j: int| 0 <= j < tail.len() && sub[t - 1] == tail[j];
                    assert(out[t] == es[j + 1]);
                }
            }
        }
        assert forall|p: int, q: int| 0 <= p < q < out.len() implies key_cmp(
            (#[trigger] out[p]).0,
            (#[trigger] out[q]).0,
        ) != 0 by {
            if p == 0 {
                assert(out[0] == es[0]);
                if out[q] == (k, v) {
                    assert(key_cmp(es[0].0, k) != 0);
                } else {
                    let j = choose|j: int| 0 <= j < tail.len() && sub[q - 1] == tail[j];
                    assert(out[q] == es[j + 1]);
                }
            } else {
                assert(out[p] == sub[p - 1] && out[q] == sub[q - 1]);
            }
        }
    } else {
        assert(out == seq![(k, v)] + es);
        assert forall|p: int, q: int| 0 <= p < q < out.len() implies key_cmp(
            (#[trigger] out[p]).0,
            (#[trigger] out[q]).0,
        ) != 0 by {
            if p == 0 {
                assert(out[q] == es[q - 1]);
                assert(key_cmp(es[q - 1].0, k) != 0);
                lemma_key_cmp_antisym(k, es[q - 1].0);
            } else {
                assert(out[p] == es[p - 1] && out[q] == es[q - 1]);
            }
        }
    }
}

/// Removal keeps keys distinct.
proof fn lemma_remove_pair_distinct(es: Seq<EntryV>, k: IndexKeyV, id: DocumentIdV)
    requires
        keys_distinct(es),
    ensures
        keys_distinct(remove_pair(es, k, id)),
        remove_pair(es, k, id).len() <= es.len(),
        forall|t: int| 0 <= t < remove_pair(es, k, id).len() ==> exists|j: int|
            0 <= j < es.len() && #[trigger] remove_pair(es, k, id)[t] == es[j],
    decreases es.len(),
{
    let out = remove_pair(es, k, id);
    if es.len() == 0 {
    } else if key_cmp(es[0].0, k) == 0 && es[0].1 == id {
        assert(out == es.drop_first());
        assert(forall|t: int| 0 <= t < out.len() ==> #[trigger] out[t] == es[t + 1]);
    } else {
        let tail = es.drop_first();
        assert(forall|j: int| 0 <= j < tail.len() ==> #[trigger] tail[j] == es[j + 1]);
        lemma_remove_pair_distinct(tail, k, id);
        let sub = remove_pair(tail, k, id);
        assert(out == seq![es[0]] + sub);
        assert forall|t: int| 0 <= t < out.len() implies exists|j: int|
            0 <= j < es.len() && #[trigger] out[t] == es[j] by {
            if t == 0 {
                assert(out[0] == es[0]);
            } else {
                assert(out[t] == sub[t - 1]);
                let j = choose|j: int| 0 <= j < tail.len() && sub[t - 1] == tail[j];
                assert(out[t] == es[j + 1]);
            }
        }
        assert forall|p: int, q: int| 0 <= p < q < out.len() implies key_cmp(
            (#[trigger] out[p]).0,
            (#[trigger] out[q]).0,
        ) != 0 by {
            if p == 0 {
                let j = choose|j: int| 0 <= j < tail.len() && sub[q - 1] == tail[j];
                assert(out[q] == es[j + 1]);
            } else {
                assert(out[p] == sub[p - 1] && out[q] == sub[q - 1]);
            }
        }
    }
}

/// The B+ tree: an ordered map from index keys to document ids.
#[derive(Debug)]
pub struct BPlusTreeFull {
    /// The root node; callers go through the tree's operations, whose
    /// contracts hold only under `wf`.
    pub root: Node,
    pub metadata: IndexMetadata,
}

impl BPlusTreeFull {
    /// The entries, in key order.
    pub open spec fn entries(&self) -> Seq<EntryV> {
        node_entries(self.root)
    }

    /// The tree is well formed: the root within an unbounded window, the key
    /// count tracked, and under a unique index the keys pairwise distinct.
    pub open spec fn wf(&self) -> bool {
        &&& wf_node(self.root, None, None)
        &&& self.metadata.num_keys == self.entries().len()
        &&& self.metadata.unique ==> keys_distinct(self.entries())
    }

    /// Law: the entries of a well-formed tree are in key order — an in-order
    /// traversal of the leaves yields the keys in the total order.
    pub proof fn lemma_entries_sorted(&self)
        requires
            self.wf(),
        ensures
            entries_sorted(self.entries()),
    {
        lemma_wf_entries_sorted(self.root, None, None);
    }

    /// An empty tree.
    pub fn new(name: String, field: String, unique: bool) -> (r: BPlusTreeFull)
        ensures
            r.wf(),
            r.entries() == Seq::<EntryV>::empty(),
            r.metadata.name@ == name@,
            r.metadata.field@ == field@,
            r.metadata.unique == unique,
            r.metadata.num_keys == 0,
            r.metadata.tree_height == 1,
    {
        let root = Node::Leaf { keys: Vec::new(), values: Vec::new() };
        let r = BPlusTreeFull {
            root,
            metadata: IndexMetadata {
                name,
                field,
                unique,
                sparse: false,
                num_keys: 0,
                tree_height: 1,
                root_offset: 0,
            },
        };
        proof {
            assert(r.entries() =~= Seq::<EntryV>::empty());
        }
        r
    }

    /// Point lookup: some id stored under a key equivalent to `key`.
    pub fn search(&self, key: &IndexKey) -> (r: Option<DocumentId>)
        requires
            self.wf(),
        ensures
            (r is Some) == has_key(self.entries(), key@),
            r matches Some(id) ==> exists|t: int|
                0 <= t < self.entries().len() && key_cmp(
                    (#[trigger] self.entries()[t]).0,
                    key@,
                ) == 0 && self.entries()[t].1 == id@,
    {
        search_in_node(&self.root, key, Ghost(None), Ghost(None))
    }

    /// Insert a pair. Under a unique index a key already present is refused
    /// with `IndexError` and the tree does not change.
    pub fn insert(&mut self, key: IndexKey, doc_id: DocumentId) -> (r: Result<
        (),
        MongoLiteError,
    >)
        requires
            old(self).wf(),
            old(self).entries().len() < u64::MAX,
        ensures
            final(self).wf(),
            final(self).metadata.name@ == old(self).metadata.name@,
            final(self).metadata.field@ == old(self).metadata.field@,
            final(self).metadata.unique == old(self).metadata.unique,
            match r {
                Ok(()) => {
                    &&& !(old(self).metadata.unique && has_key(old(self).entries(), key@))
                    &&& final(self).entries() == insert_entry(old(self).entries(), key@, doc_id@)
                    &&& final(self).metadata.num_keys == old(self).metadata.num_keys + 1
                }
                Err(e) => {
                    &&& e is IndexError
                    &&& old(self).metadata.unique && has_key(old(self).entries(), key@)
                    &&& final(self).entries() == old(self).entries()
                    &&& final(self).metadata.num_keys == old(self).metadata.num_keys
                }
            },
    {
        let ghost kv = key@;
        let ghost idv = doc_id@;
        if self.metadata.unique {
            let hit = search_in_node(&self.root, &key, Ghost(None), Ghost(None));
            if hit.is_some() {
                return Err(MongoLiteError::IndexError(String::new()));
            }
        }
        proof {
            if self.metadata.unique {
                lemma_insert_entry_distinct(self.entries(), kv, idv);
            }
        }
        let mut taken = Node::Leaf { keys: Vec::new(), values: Vec::new() };
        core::mem::swap(&mut self.root, &mut taken);
        let (left, split) = insert_into_node(taken, key, doc_id, Ghost(None), Ghost(None));
        match split {
            None => {
                self.root = left;
            }
            Some((sep, right)) => {
                let ghost sepv = sep@;
                let ghost leftn = left;
                let ghost rightn = right;
                let mut kvec: Vec<IndexKey> = Vec::new();
                kvec.push(sep);
                let mut cvec: Vec<Node> = Vec::new();
                cvec.push(left);
                cvec.push(right);
                proof {
                    assert(kvec@ =~= seq![kvec@[0]]);
                    assert(cvec@ =~= seq![leftn, rightn]);
                    assert(child_lo(kvec@, None, 0) == None::<IndexKeyV>);
                    assert(child_hi(kvec@, None, 0) == Some(sepv));
                    assert(child_lo(kvec@, None, 1) == Some(sepv));
                    assert(child_hi(kvec@, None, 1) == None::<IndexKeyV>);
                    assert forall|k2: int| 0 <= k2 < cvec@.len() implies wf_node(
                        #[trigger] cvec@[k2],
                        child_lo(kvec@, None, k2),
                        child_hi(kvec@, None, k2),
                    ) by {
                        if k2 == 0 {
                            assert(cvec@[0] == leftn);
                        } else {
                            assert(cvec@[1] == rightn);
                        }
                    }
                    lemma_wf_children_build(kvec@, cvec@, None, None, 2);
                    assert(cvec@[0] == leftn && cvec@[1] == rightn);
                    assert(children_entries(cvec@, 0) =~= Seq::<EntryV>::empty());
                    assert(children_entries(cvec@, 1) =~= node_entries(leftn));
                    assert(children_entries(cvec@, 2) =~= node_entries(leftn) + node_entries(
                        rightn,
                    ));
                }
                self.root = Node::Internal { keys: kvec, children: cvec };
                if self.metadata.tree_height < u32::MAX {
                    self.metadata.tree_height = self.metadata.tree_height + 1;
                }
            }
        }
        proof {
            lemma_insert_entry_len(old(self).entries(), kv, idv);
        }
        self.metadata.num_keys = self.metadata.num_keys + 1;
        Ok(())
    }

    /// Remove the first entry matching `(key, doc_id)`; lazy, no rebalance.
    pub fn delete(&mut self, key: &IndexKey, doc_id: &DocumentId) -> (r: bool)
        requires
            old(self).wf(),
        ensures
            final(self).wf(),
            final(self).metadata.name@ == old(self).metadata.name@,
            final(self).metadata.field@ == old(self).metadata.field@,
            final(self).metadata.unique == old(self).metadata.unique,
            r == has_pair(old(self).entries(), key@, doc_id@),
            final(self).entries() == remove_pair(old(self).entries(), key@, doc_id@),
            final(self).metadata.num_keys == if r {
                old(self).metadata.num_keys - 1
            } else {
                old(self).metadata.num_keys as int
            },
    {
        let ghost kv = key@;
        let ghost idv = doc_id@;
        proof {
            lemma_remove_pair_len(self.entries(), kv, idv);
            if self.metadata.unique {
                lemma_remove_pair_distinct(self.entries(), kv, idv);
            }
        }
        let mut taken = Node::Leaf { keys: Vec::new(), values: Vec::new() };
        core::mem::swap(&mut self.root, &mut taken);
        let (newroot, found) = delete_from_node(taken, key, doc_id, Ghost(None), Ghost(None));
        self.root = newroot;
        if found {
            self.metadata.num_keys = self.metadata.num_keys - 1;
        }
        found
    }

    /// The ids of the entries within the window, in key order.
    pub fn range_scan(
        &self,
        start: &IndexKey,
        end: &IndexKey,
        inclusive_start: bool,
        inclusive_end: bool,
    ) -> (r: Vec<DocumentId>)
        requires
            self.wf(),
        ensures
            doc_views(r@) == window_ids(
                self.entries(),
                start@,
                end@,
                inclusive_start,
                inclusive_end,
            ),
    {
        let mut out: Vec<DocumentId> = Vec::new();
        proof {
            assert(doc_views(out@) =~= Seq::<DocumentIdV>::empty());
        }
        range_scan_node(
            &self.root,
            start,
            end,
            inclusive_start,
            inclusive_end,
            &mut out,
            Ghost(None),
            Ghost(None),
        );
        proof {
            assert(doc_views(out@) =~= window_ids(
                self.entries(),
                start@,
                end@,
                inclusive_start,
                inclusive_end,
            ));
        }
        out
    }

    /// Number of entries.
    pub fn size(&self) -> (r: u64)
        requires
            self.wf(),
        ensures
            r == self.entries().len(),
    {
        self.metadata.num_keys
    }

    /// Height of the tree.
    pub fn height(&self) -> (r: u32)
        ensures
            r == self.metadata.tree_height,
    {
        self.metadata.tree_height
    }
}

/// Removal shortens the entries exactly when the pair is present.
proof fn lemma_remove_pair_len(es: Seq<EntryV>, k: IndexKeyV, id: DocumentIdV)
    ensures
        remove_pair(es, k, id).len() == if has_pair(es, k, id) {
            es.len() - 1
        } else {
            es.len() as int
        },
    decreases es.len(),
{
    if es.len() == 0 {
    } else if key_cmp(es[0].0, k) == 0 && es[0].1 == id {
        assert(has_pair(es, k, id));
    } else {
        let tail = es.drop_first();
        assert(forall|j: int| 0 <= j < tail.len() ==> #[trigger] tail[j] == es[j + 1]);
        lemma_remove_pair_len(tail, k, id);
        if has_pair(tail, k, id) {
            let t = choose|t: int| 0 <= t < tail.len() && key_cmp(
                (#[trigger] tail[t]).0,
                k,
            ) == 0 && tail[t].1 == id;
            assert(es[t + 1] == tail[t]);
        }
        if has_pair(es, k, id) {
            let t = choose|t: int| 0 <= t < es.len() && key_cmp(
                (#[trigger] es[t]).0,
                k,
            ) == 0 && es[t].1 == id;
            assert(t > 0);
            assert(tail[t - 1] == es[t]);
        }
    }
}

/// Law: a window whose start lies above its end holds nothing — such a
/// range scan returns the empty result.
pub proof fn lemma_range_empty(
    es: Seq<EntryV>,
    start: IndexKeyV,
    end: IndexKeyV,
    inc_start: bool,
    inc_end: bool,
)
    requires
        key_cmp(start, end) > 0,
    ensures
        window_ids(es, start, end, inc_start, inc_end) == Seq::<DocumentIdV>::empty(),
    decreases es.len(),
{
    if es.len() > 0 {
        lemma_range_empty(es.drop_last(), start, end, inc_start, inc_end);
        if in_window(es.last().0, start, end, inc_start, inc_end) {
            lemma_key_cmp_trans(start, es.last().0, end);
        }
    }
}

} // verus!

verus! {

/// Models of a run of entry pairs.
pub open spec fn pair_views(s: Seq<(IndexKey, DocumentId)>) -> Seq<EntryV> {
    Seq::new(s.len(), |i: int| (s[i].0@, s[i].1@))
}

/// Collect the entries of a node, in key order.
fn collect_node(
    node: &Node,
    out: &mut Vec<(IndexKey, DocumentId)>,
    Ghost(lo): Ghost<Option<IndexKeyV>>,
    Ghost(hi): Ghost<Option<IndexKeyV>>,
)
    requires
        wf_node(*node, lo, hi),
    ensures
        pair_views(final(out)@) == pair_views(old(out)@) + node_entries(*node),
    decreases node,
{
    match node {
        Node::Leaf { keys, values } => {
            let ghost base = out@;
            let mut t: usize = 0;
            while t < keys.len()
                invariant
                    t <= keys@.len(),
                    node matches Node::Leaf { keys: k2, values: v2 } && k2@ == keys@ && v2@
                        == values@,
                    keys@.len() == values@.len(),
                    pair_views(out@) == pair_views(base) + leaf_entries(keys@, values@).subrange(
                        0,
                        t as int,
                    ),
                decreases keys@.len() - t,
            {
                let ghost pre = out@;
                out.push((keys[t].clone(), values[t].clone()));
                proof {
                    assert(pair_views(out@) =~= pair_views(pre).push(
                        (keys@[t as int]@, values@[t as int]@),
                    ));
                    assert(pair_views(base) + leaf_entries(keys@, values@).subrange(0, t + 1)
                        =~= (pair_views(base) + leaf_entries(keys@, values@).subrange(
                        0,
                        t as int,
                    )).push(leaf_entries(keys@, values@)[t as int]));
                }
                t = t + 1;
            }
            proof {
                assert(leaf_entries(keys@, values@).subrange(
                    0,
                    keys@.len() as int,
                ) =~= leaf_entries(keys@, values@));
            }
        }
        Node::Internal { keys, children } => {
            let ghost base = out@;
            let ghost cs = children@;
            let mut j: usize = 0;
            while j < children.len()
                invariant
                    j <= cs.len(),
                    cs == children@,
                    node matches Node::Internal { keys: k2, children: c2 } && c2@ == cs && k2@
                        == keys@,
                    wf_node(*node, lo, hi),
                    pair_views(out@) == pair_views(base) + children_entries(cs, j as int),
                decreases cs.len() - j,
            {
                proof {
                    assert(decreases_to!(*children => cs[j as int]));
                    assert(decreases_to!(*node => cs[j as int]));
                    lemma_wf_children_index(keys@, cs, lo, hi, cs.len() as int, j as int);
                }
                collect_node(
                    &children[j],
                    out,
                    Ghost(child_lo(keys@, lo, j as int)),
                    Ghost(child_hi(keys@, hi, j as int)),
                );
                proof {
                    assert(pair_views(out@) =~= pair_views(base) + children_entries(cs, j + 1));
                }
                j = j + 1;
            }
        }
    }
}

impl BPlusTreeFull {
    /// Every entry of the tree, in key order: the snapshot the two-phase
    /// commit persists.
    pub fn entries_vec(&self) -> (r: Vec<(IndexKey, DocumentId)>)
        requires
            self.wf(),
        ensures
            pair_views(r@) == self.entries(),
    {
        let mut out: Vec<(IndexKey, DocumentId)> = Vec::new();
        proof {
            assert(pair_views(out@) =~= Seq::<EntryV>::empty());
        }
        collect_node(&self.root, &mut out, Ghost(None), Ghost(None));
        proof {
            assert(pair_views(out@) =~= self.entries());
        }
        out
    }

    /// Rebuild a tree from a saved snapshot of its entries, as `entries_vec`
    /// wrote them. Loading a saved snapshot reproduces the tree's entries
    /// exactly, so the rebuilt tree answers every search, delete and range
    /// scan as the saved one did.
    pub fn from_entries(
        name: String,
        field: String,
        unique: bool,
        entries: Vec<(IndexKey, DocumentId)>,
    ) -> (r: BPlusTreeFull)
        requires
            entries_sorted(pair_views(entries@)),
            unique ==> keys_distinct(pair_views(entries@)),
            entries@.len() < u64::MAX,
        ensures
            r.wf(),
            r.entries() == pair_views(entries@),
            r.metadata.name@ == name@,
            r.metadata.field@ == field@,
            r.metadata.unique == unique,
    {
        let ghost es0 = pair_views(entries@);
        let ghost total = es0.len();
        let ghost n0 = name@;
        let ghost f0 = field@;
        let mut t = BPlusTreeFull::new(name, field, unique);
        let mut rest = entries;
        proof {
            assert(pair_views(rest@) =~= es0.subrange(0, total as int));
        }
        while rest.len() > 0
            invariant
                t.wf(),
                entries_sorted(es0),
                unique ==> keys_distinct(es0),
                t.metadata.unique == unique,
                t.metadata.name@ == n0,
                t.metadata.field@ == f0,
                rest@.len() <= total,
                total == es0.len() < u64::MAX,
                t.entries() == es0.subrange(0, total - rest@.len()),
                pair_views(rest@) == es0.subrange(total - rest@.len(), total as int),
            decreases rest.len(),
        {
            let ghost i = total - rest@.len();
            let ghost pre = rest@;
            let e = rest.remove(0);
            proof {
                assert(pair_views(pre)[0] == es0.subrange(i, total as int)[0]);
                assert((e.0@, e.1@) == es0[i]);
                assert(pair_views(rest@) =~= es0.subrange(i + 1, total as int)) by {
                    assert forall|j: int| 0 <= j < rest@.len() implies pair_views(rest@)[j]
                        == es0.subrange(i + 1, total as int)[j] by {
                        assert(rest@[j] == pre[j + 1]);
                        assert(pair_views(pre)[j + 1] == es0.subrange(i, total as int)[j + 1]);
                    }
                }
                let prefix = t.entries();
                assert forall|j: int| 0 <= j < prefix.len() implies key_cmp(
                    (#[trigger] prefix[j]).0,
                    e.0@,
                ) <= 0 by {
                    assert(prefix[j] == es0[j]);
                    assert(key_le(es0[j].0, es0[i].0));
                }
                lemma_insert_entry_at(prefix, e.0@, e.1@, prefix.len() as int);
                assert(insert_entry(prefix, e.0@, e.1@) =~= es0.subrange(0, i + 1));
                if unique && has_key(prefix, e.0@) {
                    let j = choose|j: int|
                        0 <= j < prefix.len() && key_cmp(prefix[j].0, e.0@) == 0;
                    assert(prefix[j] == es0[j]);
                    assert(key_cmp(es0[j].0, es0[i].0) != 0);
                }
            }
            match t.insert(e.0, e.1) {
                Ok(()) => {},
                Err(_) => {
                    proof {
                        assert(false);
                    }
                },
            }
        }
        proof {
            assert(t.entries() =~= es0);
        }
        t
    }
}

} // verus!
