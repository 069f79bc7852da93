//! The order in which the store keeps its labels: labels are compared by the
//! bytes of their UTF-8 encoding, the shorter of two labels first when it is a
//! prefix of the other.

use vstd::prelude::*;
use vstd::utf8::*;

verus! {

/// Where one label stands relative to another.
#[derive(Clone, Copy, PartialEq, Eq, Structural, Debug)]
pub enum Rank {
    Before,
    Same,
    After,
}

/// `a` and `b` agree on their first `k` bytes, and at position `k` either `a`
/// has ended while `b` goes on, or `a` holds the smaller byte.
pub open spec fn bytes_before_at(a: Seq<u8>, b: Seq<u8>, k: int) -> bool {
    &&& 0 <= k <= a.len()
    &&& k < b.len()
    &&& forall|j: int| 0 <= j < k ==> a[j] == b[j]
    &&& k < a.len() ==> a[k] < b[k]
}

/// Strict lexicographic order on byte sequences.
pub open spec fn bytes_before(a: Seq<u8>, b: Seq<u8>) -> bool {
    exists|k: int| bytes_before_at(a, b, k)
}

/// Strict order on labels: lexicographic on the UTF-8 encoding.
pub open spec fn label_before(a: Seq<char>, b: Seq<char>) -> bool {
    bytes_before(encode_utf8(a), encode_utf8(b))
}

/// The labels stand in strictly ascending order, so none occurs twice.
pub open spec fn ascending(labels: Seq<Seq<char>>) -> bool {
    forall|i: int, j: int| 0 <= i < j < labels.len() ==> label_before(labels[i], labels[j])
}

/// The labels that a vector of strings holds.
pub open spec fn label_views(labels: Seq<String>) -> Seq<Seq<char>> {
    labels.map_values(|s: String| s@)
}

/// No label stands before itself.
pub proof fn lemma_label_before_irreflexive(a: Seq<char>)
    ensures
        !label_before(a, a),
{
}

/// The order is transitive.
pub proof fn lemma_label_before_transitive(a: Seq<char>, b: Seq<char>, c: Seq<char>)
    requires
        label_before(a, b),
        label_before(b, c),
    ensures
        label_before(a, c),
{
    let x = encode_utf8(a);
    let y = encode_utf8(b);
    let z = encode_utf8(c);
    let k1 = choose|k: int| bytes_before_at(x, y, k);
    let k2 = choose|k: int| bytes_before_at(y, z, k);
    let k = if k1 <= k2 { k1 } else { k2 };
    assert(bytes_before_at(x, z, k));
}

/// Of two labels at most one stands before the other.
pub proof fn lemma_label_before_asymmetric(a: Seq<char>, b: Seq<char>)
    requires
        label_before(a, b),
    ensures
        !label_before(b, a),
        a != b,
{
    if label_before(b, a) {
        lemma_label_before_transitive(a, b, a);
    }
}

/// Labels with the same encoding are the same label.
pub proof fn lemma_same_bytes_same_label(a: Seq<char>, b: Seq<char>)
    requires
        encode_utf8(a) == encode_utf8(b),
    ensures
        a == b,
{
    encode_utf8_decode_utf8(a);
    encode_utf8_decode_utf8(b);
}

/// In an ascending sequence each label occurs at one position only.
pub proof fn lemma_ascending_distinct(labels: Seq<Seq<char>>, i: int, j: int)
    requires
        ascending(labels),
        0 <= i < labels.len(),
        0 <= j < labels.len(),
        labels[i] == labels[j],
    ensures
        i == j,
{
    if i < j {
        lemma_label_before_asymmetric(labels[i], labels[j]);
    } else if j < i {
        lemma_label_before_asymmetric(labels[j], labels[i]);
    }
}

/// Two ascending sequences that hold the same labels are the same sequence.
pub proof fn lemma_ascending_unique(s: Seq<Seq<char>>, t: Seq<Seq<char>>)
    requires
        ascending(s),
        ascending(t),
        forall|l: Seq<char>| s.contains(l) <==> t.contains(l),
    ensures
        s == t,
    decreases s.len(),
{
    if s.len() == 0 {
        if t.len() > 0 {
            assert(t.contains(t[0]));
        }
        assert(s =~= t);
    } else {
        assert(s.contains(s[0]));
        let k = t.index_of(s[0]);
        assert(t.contains(t[0]));
        let j = s.index_of(t[0]);
        if k > 0 && j > 0 {
            assert(label_before(t[0], t[k]));
            assert(label_before(s[0], s[j]));
            lemma_label_before_asymmetric(t[0], s[0]);
        }
        assert(s[0] == t[0]);
        let s1 = s.skip(1);
        let t1 = t.skip(1);
        assert forall|p: int, q: int| 0 <= p < q < s1.len() implies label_before(s1[p], s1[q]) by {
            assert(label_before(s[p + 1], s[q + 1]));
        }
        assert forall|p: int, q: int| 0 <= p < q < t1.len() implies label_before(t1[p], t1[q]) by {
            assert(label_before(t[p + 1], t[q + 1]));
        }
        assert forall|l: Seq<char>| s1.contains(l) <==> t1.contains(l) by {
            if s1.contains(l) {
                let i = s1.index_of(l);
                assert(s[i + 1] == l);
                assert(s.contains(l));
                let q = t.index_of(l);
                if q == 0 {
                    lemma_ascending_distinct(s, 0, i + 1);
                }
                assert(t1[q - 1] == l);
            }
            if t1.contains(l) {
                let i = t1.index_of(l);
                assert(t[i + 1] == l);
                assert(t.contains(l));
                let q = s.index_of(l);
                if q == 0 {
                    lemma_ascending_distinct(t, 0, i + 1);
                }
                assert(s1[q - 1] == l);
            }
        }
        lemma_ascending_unique(s1, t1);
        assert(s.len() == t.len()) by {
            assert(s1.len() == t1.len());
        }
        assert forall|i: int| 0 <= i < s.len() implies s[i] == t[i] by {
            if i > 0 {
                assert(s1[i - 1] == t1[i - 1]);
            }
        }
        assert(s =~= t);
    }
}

/// Of two different labels one stands before the other.
pub proof fn lemma_label_order_total(a: Seq<char>, b: Seq<char>)
    requires
        a != b,
    ensures
        label_before(a, b) || label_before(b, a),
{
    if encode_utf8(a) == encode_utf8(b) {
        lemma_same_bytes_same_label(a, b);
    }
    lemma_bytes_order_total(encode_utf8(a), encode_utf8(b), 0);
}

/// Two different byte sequences that agree on their first `k` bytes are
/// ordered one way or the other.
proof fn lemma_bytes_order_total(x: Seq<u8>, y: Seq<u8>, k: int)
    requires
        0 <= k <= x.len(),
        k <= y.len(),
        forall|j: int| 0 <= j < k ==> x[j] == y[j],
        x != y,
    ensures
        bytes_before(x, y) || bytes_before(y, x),
    decreases x.len() - k,
{
    if k == x.len() && k == y.len() {
        assert(x =~= y);
    } else if k == x.len() || (k < y.len() && x[k] < y[k]) {
        assert(bytes_before_at(x, y, k));
    } else if k == y.len() || y[k] < x[k] {
        assert(bytes_before_at(y, x, k));
    } else {
        lemma_bytes_order_total(x, y, k + 1);
    }
}

/// Compares two labels byte by byte.
pub fn rank_labels(a: &str, b: &str) -> (r: Rank)
    ensures
        r == Rank::Before <==> label_before(a@, b@),
        r == Rank::Same <==> a@ == b@,
        r == Rank::After <==> label_before(b@, a@),
{
    let x = a.as_bytes();
    let y = b.as_bytes();
    let n = x.len();
    let m = y.len();
    let mut i: usize = 0;
    while i < n && i < m
        invariant
            x@ == encode_utf8(a@),
            y@ == encode_utf8(b@),
            n == x@.len(),
            m == y@.len(),
            i <= n,
            i <= m,
            forall|j: int| 0 <= j < i ==> x@[j] == y@[j],
        decreases n - i,
    {
        if x[i] < y[i] {
            proof {
                assert(bytes_before_at(x@, y@, i as int));
                lemma_label_before_asymmetric(a@, b@);
            }
            return Rank::Before;
        }
        if y[i] < x[i] {
            proof {
                assert(bytes_before_at(y@, x@, i as int));
                lemma_label_before_asymmetric(b@, a@);
            }
            return Rank::After;
        }
        i += 1;
    }
    if n < m {
        proof {
            assert(bytes_before_at(x@, y@, n as int));
            lemma_label_before_asymmetric(a@, b@);
        }
        Rank::Before
    } else if m < n {
        proof {
            assert(bytes_before_at(y@, x@, m as int));
            lemma_label_before_asymmetric(b@, a@);
        }
        Rank::After
    } else {
        proof {
            assert(x@ =~= y@);
            lemma_same_bytes_same_label(a@, b@);
            lemma_label_before_irreflexive(a@);
        }
        Rank::Same
    }
}

/// Binary search for `target` among ascending labels: `Ok` with the position
/// that holds it, or `Err` with the position at which it would have to be
/// inserted to keep the order.
pub fn find_label(labels: &Vec<String>, target: &str) -> (r: Result<usize, usize>)
    requires
        ascending(label_views(labels@)),
    ensures
        match r {
            Ok(i) => i < labels.len() && labels[i as int]@ == target@,
            Err(i) => {
                &&& i <= labels.len()
                &&& forall|j: int| 0 <= j < i ==> label_before(#[trigger] labels[j]@, target@)
                &&& forall|j: int|
                    i <= j < labels.len() ==> label_before(target@, #[trigger] labels[j]@)
            },
        },
{
    let mut lo: usize = 0;
    let mut hi: usize = labels.len();
    while lo < hi
        invariant
            lo <= hi <= labels.len(),
            ascending(label_views(labels@)),
            forall|j: int| 0 <= j < lo ==> label_before(#[trigger] labels[j]@, target@),
            forall|j: int| hi <= j < labels.len() ==> label_before(target@, #[trigger] labels[j]@),
        decreases hi - lo,
    {
        let mid: usize = lo + (hi - lo) / 2;
        let r = rank_labels(labels[mid].as_str(), target);
        match r {
            Rank::Same => {
                return Ok(mid);
            },
            Rank::Before => {
                assert forall|j: int| 0 <= j < mid + 1 implies label_before(
                    #[trigger] labels[j]@,
                    target@,
                ) by {
                    if j < mid {
                        assert(label_before(
                            label_views(labels@)[j],
                            label_views(labels@)[mid as int],
                        ));
                        lemma_label_before_transitive(labels[j]@, labels[mid as int]@, target@);
                    }
                }
                lo = mid + 1;
            },
            Rank::After => {
                assert forall|j: int| mid <= j < labels.len() implies label_before(
                    target@,
                    #[trigger] labels[j]@,
                ) by {
                    if mid < j {
                        assert(label_before(
                            label_views(labels@)[mid as int],
                            label_views(labels@)[j],
                        ));
                        lemma_label_before_transitive(target@, labels[mid as int]@, labels[j]@);
                    }
                }
                hi = mid;
            },
        }
    }
    Err(lo)
}

} // verus!
