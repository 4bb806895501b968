//! Sets of strings kept in the order of their UTF-8 bytes, as
//! `BTreeSet<str>` keeps them, with search by binary search.

use vstd::prelude::*;

verus! {

broadcast use vstd::string::group_string_axioms;

/// The UTF-8 bytes of a text.
pub open spec fn utf8_of(t: Seq<char>) -> Seq<u8> {
    vstd::utf8::encode_utf8(t)
}

/// Lexicographic order on byte strings.
pub open spec fn bytes_lt(a: Seq<u8>, b: Seq<u8>) -> bool
    decreases a.len(),
{
    if b.len() == 0 {
        false
    } else if a.len() == 0 {
        true
    } else if a[0] != b[0] {
        a[0] < b[0]
    } else {
        bytes_lt(a.drop_first(), b.drop_first())
    }
}

/// Order on texts: by their UTF-8 bytes, as `str` orders.
pub open spec fn text_lt(a: Seq<char>, b: Seq<char>) -> bool {
    bytes_lt(utf8_of(a), utf8_of(b))
}

/// The texts are in strictly increasing order.
pub open spec fn strictly_sorted(s: Seq<Seq<char>>) -> bool {
    forall|i: int, j: int| 0 <= i < j < s.len() ==> text_lt(#[trigger] s[i], #[trigger] s[j])
}

pub proof fn lemma_bytes_lt_irreflexive(a: Seq<u8>)
    ensures
        !bytes_lt(a, a),
    decreases a.len(),
{
    if a.len() > 0 {
        lemma_bytes_lt_irreflexive(a.drop_first());
    }
}

pub proof fn lemma_bytes_lt_transitive(a: Seq<u8>, b: Seq<u8>, c: Seq<u8>)
    requires
        bytes_lt(a, b),
        bytes_lt(b, c),
    ensures
        bytes_lt(a, c),
    decreases a.len(),
{
    if a.len() > 0 && b.len() > 0 && c.len() > 0 && a[0] == b[0] && b[0] == c[0] {
        lemma_bytes_lt_transitive(a.drop_first(), b.drop_first(), c.drop_first());
    }
}

pub proof fn lemma_bytes_lt_total(a: Seq<u8>, b: Seq<u8>)
    ensures
        bytes_lt(a, b) || bytes_lt(b, a) || a == b,
    decreases a.len(),
{
    if a.len() > 0 && b.len() > 0 && a[0] == b[0] {
        lemma_bytes_lt_total(a.drop_first(), b.drop_first());
        if a.drop_first() == b.drop_first() {
            assert(a =~= seq![a[0]] + a.drop_first());
            assert(b =~= seq![b[0]] + b.drop_first());
        }
    } else if a.len() == 0 && b.len() == 0 {
        assert(a =~= b);
    }
}

/// Texts are equal exactly when their bytes are.
pub proof fn lemma_utf8_injective(a: Seq<char>, b: Seq<char>)
    ensures
        utf8_of(a) == utf8_of(b) <==> a == b,
{
    vstd::utf8::encode_utf8_decode_utf8(a);
    vstd::utf8::encode_utf8_decode_utf8(b);
}

/// `text_lt` is a strict total order.
pub proof fn lemma_text_lt_order(a: Seq<char>, b: Seq<char>, c: Seq<char>)
    ensures
        !text_lt(a, a),
        text_lt(a, b) && text_lt(b, c) ==> text_lt(a, c),
        text_lt(a, b) || text_lt(b, a) || a == b,
        text_lt(a, b) ==> !text_lt(b, a),
{
    lemma_bytes_lt_irreflexive(utf8_of(a));
    if text_lt(a, b) && text_lt(b, c) {
        lemma_bytes_lt_transitive(utf8_of(a), utf8_of(b), utf8_of(c));
    }
    lemma_bytes_lt_total(utf8_of(a), utf8_of(b));
    lemma_utf8_injective(a, b);
    if text_lt(a, b) && text_lt(b, a) {
        lemma_bytes_lt_transitive(utf8_of(a), utf8_of(b), utf8_of(a));
    }
}

/// Comparison of byte strings: -1, 0 or 1.
pub fn compare_bytes(a: &[u8], b: &[u8]) -> (r: i8)
    ensures
        r == -1 || r == 0 || r == 1,
        r == -1 <==> bytes_lt(a@, b@),
        r == 1 <==> bytes_lt(b@, a@),
        r == 0 <==> a@ == b@,
{
    let mut i: usize = 0;
    assert(a@.skip(0) =~= a@);
    assert(b@.skip(0) =~= b@);
    while i < a.len() && i < b.len() && a[i] == b[i]
        invariant
            i <= a@.len(),
            i <= b@.len(),
            a@.take(i as int) == b@.take(i as int),
            bytes_lt(a@, b@) == bytes_lt(a@.skip(i as int), b@.skip(i as int)),
            bytes_lt(b@, a@) == bytes_lt(b@.skip(i as int), a@.skip(i as int)),
        decreases a@.len() - i,
    {
        assert(a@.skip(i as int).drop_first() =~= a@.skip(i + 1));
        assert(b@.skip(i as int).drop_first() =~= b@.skip(i + 1));
        assert(a@.take(i + 1) =~= a@.take(i as int).push(a@[i as int]));
        assert(b@.take(i + 1) =~= b@.take(i as int).push(b@[i as int]));
        i = i + 1;
    }
    proof {
        lemma_bytes_lt_irreflexive(a@);
    }
    if i < a.len() && i < b.len() {
        if a[i] < b[i] {
            -1
        } else {
            1
        }
    } else if i < b.len() {
        assert(a@ =~= a@.take(i as int));
        assert(a@ != b@);
        -1
    } else if i < a.len() {
        assert(b@ =~= b@.take(i as int));
        assert(a@ != b@);
        1
    } else {
        assert(a@ =~= a@.take(i as int));
        assert(b@ =~= b@.take(i as int));
        0
    }
}

/// Comparison of strings by their UTF-8 bytes: -1, 0 or 1.
pub fn compare_text(a: &str, b: &str) -> (r: i8)
    ensures
        r == -1 || r == 0 || r == 1,
        r == -1 <==> text_lt(a@, b@),
        r == 1 <==> text_lt(b@, a@),
        r == 0 <==> a@ == b@,
{
    proof {
        lemma_utf8_injective(a@, b@);
    }
    compare_bytes(a.as_bytes(), b.as_bytes())
}

/// The views of a sequence of strings.
pub open spec fn texts(v: Seq<String>) -> Seq<Seq<char>> {
    v.map_values(|s: String| s@)
}

/// Where `t` is, or would go, in a sorted sequence of strings: the number
/// of entries below it, and whether it is present.
pub fn search(v: &Vec<String>, lo: usize, hi: usize, t: &str) -> (r: (usize, bool))
    requires
        lo <= hi <= v@.len(),
        strictly_sorted(texts(v@).subrange(lo as int, hi as int)),
    ensures
        lo <= r.0 <= hi,
        forall|i: int| lo <= i < r.0 ==> text_lt(#[trigger] texts(v@)[i], t@),
        forall|i: int| r.0 < i < hi ==> text_lt(t@, #[trigger] texts(v@)[i]),
        r.1 <==> (r.0 < hi && texts(v@)[r.0 as int] == t@),
        !r.1 && r.0 < hi ==> text_lt(t@, texts(v@)[r.0 as int]),
{
    let mut low = lo;
    let mut high = hi;
    while low < high
        invariant
            lo <= low <= high <= hi,
            hi <= v@.len(),
            strictly_sorted(texts(v@).subrange(lo as int, hi as int)),
            forall|i: int| lo <= i < low ==> text_lt(#[trigger] texts(v@)[i], t@),
            forall|i: int| high <= i < hi ==> text_lt(t@, #[trigger] texts(v@)[i]) || texts(v@)[i] == t@,
        decreases high - low,
    {
        let mid = low + (high - low) / 2;
        let c = compare_text(v[mid].as_str(), t);
        assert(texts(v@)[mid as int] == v@[mid as int]@);
        if c == -1 {
            proof {
                assert forall|i: int| lo <= i < mid + 1 implies text_lt(#[trigger] texts(v@)[i], t@) by {
                    if i < mid {
                        assert(texts(v@).subrange(lo as int, hi as int)[i - lo] == texts(v@)[i]);
                        assert(texts(v@).subrange(lo as int, hi as int)[mid - lo] == texts(v@)[mid as int]);
                        lemma_text_lt_order(texts(v@)[i], texts(v@)[mid as int], t@);
                    }
                }
            }
            low = mid + 1;
        } else {
            proof {
                assert forall|i: int| mid <= i < hi implies text_lt(t@, #[trigger] texts(v@)[i]) || texts(v@)[i] == t@ by {
                    if i > mid && i < high {
                        assert(texts(v@).subrange(lo as int, hi as int)[i - lo] == texts(v@)[i]);
                        assert(texts(v@).subrange(lo as int, hi as int)[mid - lo] == texts(v@)[mid as int]);
                        assert(text_lt(texts(v@)[mid as int], texts(v@)[i]));
                        if c == 0 {
                            assert(texts(v@)[mid as int] == t@);
                        } else {
                            lemma_text_lt_order(t@, texts(v@)[mid as int], texts(v@)[i]);
                        }
                    }
                }
            }
            high = mid;
        }
    }
    if low < hi {
        let c = compare_text(v[low].as_str(), t);
        assert(texts(v@)[low as int] == v@[low as int]@);
        proof {
            assert forall|i: int| low < i < hi implies text_lt(t@, #[trigger] texts(v@)[i]) by {
                assert(texts(v@).subrange(lo as int, hi as int)[i - lo] == texts(v@)[i]);
                assert(texts(v@).subrange(lo as int, hi as int)[low - lo] == texts(v@)[low as int]);
                if texts(v@)[i] == t@ {
                    lemma_text_lt_order(texts(v@)[low as int], t@, t@);
                } else {
                    lemma_text_lt_order(t@, texts(v@)[low as int], texts(v@)[i]);
                }
            }
            lemma_text_lt_order(t@, t@, t@);
        }
        (low, c == 0)
    } else {
        (low, false)
    }
}

/// Adds `t` to a sorted set of strings.
pub fn set_insert(v: &mut Vec<String>, t: &str)
    requires
        strictly_sorted(texts(old(v)@)),
    ensures
        strictly_sorted(texts(final(v)@)),
        texts(final(v)@).to_set() == texts(old(v)@).to_set().insert(t@),
{
    let ghost before = texts(v@);
    assert(before.subrange(0, before.len() as int) =~= before);
    let (pos, found) = search(v, 0, v.len(), t);
    if !found {
        v.insert(pos, String::from_str(t));
        let ghost after = texts(v@);
        assert(after =~= before.insert(pos as int, t@));
        proof {
            assert forall|i: int, j: int| 0 <= i < j < after.len() implies text_lt(#[trigger] after[i], #[trigger] after[j]) by {
                if j < pos {
                } else if i < pos && j == pos {
                } else if i < pos && j > pos {
                    lemma_text_lt_order(after[i], t@, after[j]);
                } else if i == pos {
                    if j > pos + 1 {
                        assert(text_lt(t@, before[pos as int]));
                        lemma_text_lt_order(t@, before[pos as int], before[j - 1]);
                    }
                } else {
                }
            }
            assert(after.to_set() =~= before.to_set().insert(t@)) by {
                assert forall|x: Seq<char>| after.to_set().contains(x) <==> before.to_set().insert(t@).contains(x) by {
                    if after.contains(x) {
                        let k = choose|k: int| 0 <= k < after.len() && after[k] == x;
                        if k < pos {
                            assert(before[k] == x);
                        } else if k > pos {
                            assert(before[k - 1] == x);
                        }
                    }
                    if before.contains(x) {
                        let k = choose|k: int| 0 <= k < before.len() && before[k] == x;
                        if k < pos {
                            assert(after[k] == x);
                        } else {
                            assert(after[k + 1] == x);
                        }
                    }
                    if x == t@ {
                        assert(after[pos as int] == x);
                    }
                }
            }
        }
    } else {
        proof {
            assert(before[pos as int] == t@);
            assert(before.to_set().insert(t@) =~= before.to_set());
        }
    }
}

/// The texts of a set in strictly increasing order.
pub open spec fn sorted_of(s: Set<Seq<char>>) -> Seq<Seq<char>> {
    choose|q: Seq<Seq<char>>| strictly_sorted(q) && q.to_set() == s
}

/// A strictly sorted sequence is the sorted sequence of its texts.
pub proof fn lemma_sorted_of(q: Seq<Seq<char>>)
    requires
        strictly_sorted(q),
    ensures
        sorted_of(q.to_set()) == q,
{
    let r = sorted_of(q.to_set());
    assert(strictly_sorted(r) && r.to_set() == q.to_set());
    lemma_sorted_unique(q, r);
}

/// Two strictly sorted sequences of the same texts are equal.
proof fn lemma_sorted_unique(a: Seq<Seq<char>>, b: Seq<Seq<char>>)
    requires
        strictly_sorted(a),
        strictly_sorted(b),
        a.to_set() == b.to_set(),
    ensures
        a == b,
    decreases a.len(),
{
    if a.len() == 0 {
        if b.len() > 0 {
            assert(a.to_set().contains(b[0]));
        }
        assert(a =~= b);
    } else if b.len() == 0 {
        assert(b.to_set().contains(a[0]));
    } else {
        assert(b.to_set().contains(a[0]));
        assert(a.to_set().contains(b[0]));
        let j = choose|j: int| 0 <= j < b.len() && b[j] == a[0];
        let i = choose|i: int| 0 <= i < a.len() && a[i] == b[0];
        if j > 0 {
            assert(text_lt(b[0], b[j]));
            lemma_text_lt_order(a[i], a[0], a[0]);
            if i > 0 {
                assert(text_lt(a[0], a[i]));
            }
        }
        assert(a[0] == b[0]);
        let a1 = a.drop_first();
        let b1 = b.drop_first();
        assert forall|x: Seq<char>| a1.to_set().contains(x) <==> b1.to_set().contains(x) by {
            if a1.to_set().contains(x) {
                let k = choose|k: int| 0 <= k < a1.len() && a1[k] == x;
                assert(a[k + 1] == x);
                assert(text_lt(a[0], a[k + 1]));
                lemma_text_lt_order(a[0], a[0], a[0]);
                assert(b.to_set().contains(x));
                let m = choose|m: int| 0 <= m < b.len() && b[m] == x;
                assert(m != 0);
                assert(b1[m - 1] == x);
            }
            if b1.to_set().contains(x) {
                let k = choose|k: int| 0 <= k < b1.len() && b1[k] == x;
                assert(b[k + 1] == x);
                assert(text_lt(b[0], b[k + 1]));
                lemma_text_lt_order(b[0], b[0], b[0]);
                assert(a.to_set().contains(x));
                let m = choose|m: int| 0 <= m < a.len() && a[m] == x;
                assert(m != 0);
                assert(a1[m - 1] == x);
            }
        }
        assert(a1.to_set() =~= b1.to_set());
        assert(strictly_sorted(a1)) by {
            assert forall|x: int, y: int| 0 <= x < y < a1.len() implies text_lt(#[trigger] a1[x], #[trigger] a1[y]) by {
                assert(a1[x] == a[x + 1] && a1[y] == a[y + 1]);
            }
        }
        assert(strictly_sorted(b1)) by {
            assert forall|x: int, y: int| 0 <= x < y < b1.len() implies text_lt(#[trigger] b1[x], #[trigger] b1[y]) by {
                assert(b1[x] == b[x + 1] && b1[y] == b[y + 1]);
            }
        }
        lemma_sorted_unique(a1, b1);
        assert(a =~= b) by {
            assert(a == seq![a[0]] + a1);
            assert(b == seq![b[0]] + b1);
        }
    }
}

/// A sorted sequence with `t` put in its place.
pub open spec fn sorted_insert(q: Seq<Seq<char>>, t: Seq<char>) -> Seq<Seq<char>>
    decreases q.len(),
{
    if q.len() == 0 {
        seq![t]
    } else if q[0] == t {
        q
    } else if text_lt(t, q[0]) {
        seq![t] + q
    } else {
        seq![q[0]] + sorted_insert(q.drop_first(), t)
    }
}

pub proof fn lemma_sorted_insert(q: Seq<Seq<char>>, t: Seq<char>)
    requires
        strictly_sorted(q),
    ensures
        strictly_sorted(sorted_insert(q, t)),
        sorted_insert(q, t).to_set() == q.to_set().insert(t),
    decreases q.len(),
{
    let r = sorted_insert(q, t);
    if q.len() == 0 {
        assert(r.to_set() =~= q.to_set().insert(t)) by {
            assert forall|x: Seq<char>| r.to_set().contains(x) <==> q.to_set().insert(t).contains(x) by {
                if r.to_set().contains(x) {
                    let k = choose|k: int| 0 <= k < r.len() && r[k] == x;
                }
                if x == t {
                    assert(r[0] == t);
                }
            }
        }
    } else if q[0] == t {
        assert(q.to_set().contains(t));
        assert(q.to_set().insert(t) =~= q.to_set());
    } else if text_lt(t, q[0]) {
        assert forall|i: int, j: int| 0 <= i < j < r.len() implies text_lt(#[trigger] r[i], #[trigger] r[j]) by {
            if i == 0 {
                assert(r[j] == q[j - 1]);
                if j > 1 {
                    lemma_text_lt_order(t, q[0], q[j - 1]);
                }
            } else {
                assert(r[i] == q[i - 1] && r[j] == q[j - 1]);
            }
        }
        assert(r.to_set() =~= q.to_set().insert(t)) by {
            assert forall|x: Seq<char>| r.to_set().contains(x) <==> q.to_set().insert(t).contains(x) by {
                if r.to_set().contains(x) {
                    let k = choose|k: int| 0 <= k < r.len() && r[k] == x;
                    if k > 0 {
                        assert(q[k - 1] == x);
                    }
                }
                if q.to_set().contains(x) {
                    let k = choose|k: int| 0 <= k < q.len() && q[k] == x;
                    assert(r[k + 1] == x);
                }
                if x == t {
                    assert(r[0] == t);
                }
            }
        }
    } else {
        let q1 = q.drop_first();
        assert(strictly_sorted(q1)) by {
            assert forall|i: int, j: int| 0 <= i < j < q1.len() implies text_lt(#[trigger] q1[i], #[trigger] q1[j]) by {
                assert(q1[i] == q[i + 1] && q1[j] == q[j + 1]);
            }
        }
        lemma_sorted_insert(q1, t);
        let r1 = sorted_insert(q1, t);
        lemma_text_lt_order(q[0], t, t);
        assert(text_lt(q[0], t));
        assert forall|i: int, j: int| 0 <= i < j < r.len() implies text_lt(#[trigger] r[i], #[trigger] r[j]) by {
            if i == 0 {
                assert(r[j] == r1[j - 1]);
                assert(r1.to_set().contains(r1[j - 1]));
                if r1[j - 1] != t {
                    assert(q1.to_set().contains(r1[j - 1]));
                    let k = choose|k: int| 0 <= k < q1.len() && q1[k] == r1[j - 1];
                    assert(q[k + 1] == q1[k]);
                }
            } else {
                assert(r[i] == r1[i - 1] && r[j] == r1[j - 1]);
            }
        }
        assert(r.to_set() =~= q.to_set().insert(t)) by {
            assert forall|x: Seq<char>| r.to_set().contains(x) <==> q.to_set().insert(t).contains(x) by {
                if r.to_set().contains(x) {
                    let k = choose|k: int| 0 <= k < r.len() && r[k] == x;
                    if k > 0 {
                        assert(r1[k - 1] == x);
                        assert(r1.to_set().contains(x));
                        if x != t {
                            let m = choose|m: int| 0 <= m < q1.len() && q1[m] == x;
                            assert(q[m + 1] == x);
                        }
                    }
                }
                if q.to_set().contains(x) {
                    let k = choose|k: int| 0 <= k < q.len() && q[k] == x;
                    if k == 0 {
                        assert(r[0] == x);
                    } else {
                        assert(q1[k - 1] == x);
                        assert(r1.to_set().contains(x));
                        let m = choose|m: int| 0 <= m < r1.len() && r1[m] == x;
                        assert(r[m + 1] == x);
                    }
                }
                if x == t {
                    assert(r1.to_set().contains(t));
                    let m = choose|m: int| 0 <= m < r1.len() && r1[m] == t;
                    assert(r[m + 1] == t);
                }
            }
        }
    }
}

/// A set that a strictly sorted sequence enumerates has it as its sorted
/// sequence.
pub proof fn lemma_sorted_of_set(q: Seq<Seq<char>>, s: Set<Seq<char>>)
    requires
        strictly_sorted(q),
        q.to_set() == s,
    ensures
        sorted_of(s) == q,
        strictly_sorted(sorted_of(s)),
        sorted_of(s).to_set() == s,
{
    lemma_sorted_of(q);
}

} // verus!
