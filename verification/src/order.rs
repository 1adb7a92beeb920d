//! Canonical ordering of map entries.
//!
//! The wire format stores every map as a sequence of (key, value) pairs.
//! To make encoding deterministic the pairs are kept sorted by key, in
//! strictly ascending byte-lexicographic order; string keys are compared by
//! their UTF-8 encodings.  Rebuilding a map from a pair sequence inserts
//! the pairs in order, so a key that appears twice keeps its later value
//! (last write wins).

use vstd::prelude::*;
use vstd::utf8::encode_utf8;

verus! {

/// Byte-lexicographic order: `a` comes before `b` if, at the first index
/// where they differ, `a` has the smaller byte, or `a` is a strict prefix
/// of `b`.
pub open spec fn bytes_lt(a: Seq<u8>, b: Seq<u8>) -> bool
    decreases a.len(),
{
    if b.len() == 0 {
        false
    } else if a.len() == 0 {
        true
    } else if a[0] < b[0] {
        true
    } else if a[0] > b[0] {
        false
    } else {
        bytes_lt(a.drop_first(), b.drop_first())
    }
}

/// Two keys are always ordered one way or the other, unless equal.
pub proof fn lemma_bytes_lt_connex(a: Seq<u8>, b: Seq<u8>)
    ensures
        bytes_lt(a, b) || bytes_lt(b, a) || a == b,
    decreases a.len(),
{
    if a.len() == 0 && b.len() == 0 {
        assert(a =~= b);
    } else if a.len() > 0 && b.len() > 0 && a[0] == b[0] {
        lemma_bytes_lt_connex(a.drop_first(), b.drop_first());
        if !bytes_lt(a, b) && !bytes_lt(b, a) {
            assert(a.drop_first() == b.drop_first());
            assert(a.len() == b.len());
            assert forall|i: int| 0 <= i < a.len() implies a[i] == b[i] by {
                if i > 0 {
                    assert(a[i] == a.drop_first()[i - 1]);
                    assert(b[i] == b.drop_first()[i - 1]);
                }
            }
            assert(a =~= b);
        }
    }
}

/// The order is asymmetric.
pub proof fn lemma_bytes_lt_asym(a: Seq<u8>, b: Seq<u8>)
    ensures
        !(bytes_lt(a, b) && bytes_lt(b, a)),
    decreases a.len(),
{
    if a.len() > 0 && b.len() > 0 && a[0] == b[0] {
        lemma_bytes_lt_asym(a.drop_first(), b.drop_first());
    }
}

/// No key comes before itself.
pub proof fn lemma_bytes_lt_irrefl(a: Seq<u8>)
    ensures
        !bytes_lt(a, a),
{
    lemma_bytes_lt_asym(a, a);
}

/// The order is transitive.
pub proof fn lemma_bytes_lt_trans(a: Seq<u8>, b: Seq<u8>, c: Seq<u8>)
    requires
        bytes_lt(a, b),
        bytes_lt(b, c),
    ensures
        bytes_lt(a, c),
    decreases a.len(),
{
    if a.len() > 0 && b.len() > 0 && c.len() > 0 && a[0] == b[0] && b[0] == c[0] {
        lemma_bytes_lt_trans(a.drop_first(), b.drop_first(), c.drop_first());
    }
}

/// Equal UTF-8 encodings mean equal strings.
pub proof fn lemma_encode_utf8_injective(a: Seq<char>, b: Seq<char>)
    requires
        encode_utf8(a) == encode_utf8(b),
    ensures
        a == b,
{
    vstd::utf8::encode_utf8_decode_utf8(a);
    vstd::utf8::encode_utf8_decode_utf8(b);
}

// ---------------------------------------------------------------------------
// Association sequences
// ---------------------------------------------------------------------------

/// The entries are in strictly ascending key order.
pub open spec fn assoc_sorted<V>(s: Seq<(Seq<u8>, V)>) -> bool {
    forall|i: int, j: int|
        #![trigger s[i], s[j]]
        0 <= i < j < s.len() ==> bytes_lt(s[i].0, s[j].0)
}

/// Insert a pair into a sorted association sequence, keeping the order and
/// replacing the value if the key is already present.
pub open spec fn assoc_insert<V>(s: Seq<(Seq<u8>, V)>, k: Seq<u8>, v: V) -> Seq<(Seq<u8>, V)>
    decreases s.len(),
{
    if s.len() == 0 {
        seq![(k, v)]
    } else if bytes_lt(k, s[0].0) {
        seq![(k, v)] + s
    } else if k == s[0].0 {
        seq![(k, v)] + s.drop_first()
    } else {
        seq![s[0]] + assoc_insert(s.drop_first(), k, v)
    }
}

/// The canonical form of an arbitrary pair sequence: insert the pairs in
/// order, so later occurrences of a key win.
pub open spec fn assoc_canon<V>(ps: Seq<(Seq<u8>, V)>) -> Seq<(Seq<u8>, V)>
    decreases ps.len(),
{
    if ps.len() == 0 {
        Seq::empty()
    } else {
        assoc_insert(assoc_canon(ps.drop_last()), ps.last().0, ps.last().1)
    }
}

/// The associative structure a pair sequence denotes: later pairs override
/// earlier ones.
pub open spec fn assoc_map<V>(s: Seq<(Seq<u8>, V)>) -> Map<Seq<u8>, V>
    decreases s.len(),
{
    if s.len() == 0 {
        Map::empty()
    } else {
        assoc_map(s.drop_last()).insert(s.last().0, s.last().1)
    }
}

/// A key is in the denoted map exactly when some entry carries it.
pub proof fn lemma_assoc_map_contains<V>(s: Seq<(Seq<u8>, V)>, k: Seq<u8>)
    ensures
        assoc_map(s).contains_key(k) <==> exists|i: int|
            0 <= i < s.len() && (#[trigger] s[i]).0 == k,
    decreases s.len(),
{
    if s.len() > 0 {
        lemma_assoc_map_contains(s.drop_last(), k);
        if assoc_map(s).contains_key(k) {
            if k == s.last().0 {
                assert(s[s.len() - 1].0 == k);
            } else {
                let i = choose|i: int|
                    0 <= i < s.drop_last().len() && (#[trigger] s.drop_last()[i]).0 == k;
                assert(s[i].0 == k);
            }
        }
        if exists|i: int| 0 <= i < s.len() && (#[trigger] s[i]).0 == k {
            let i = choose|i: int| 0 <= i < s.len() && (#[trigger] s[i]).0 == k;
            if i < s.len() - 1 {
                assert(s.drop_last()[i].0 == k);
            }
        }
    }
}

/// In a sorted sequence every entry's value is the map's value for its key.
pub proof fn lemma_assoc_map_value<V>(s: Seq<(Seq<u8>, V)>, i: int)
    requires
        assoc_sorted(s),
        0 <= i < s.len(),
    ensures
        assoc_map(s).contains_key(s[i].0),
        assoc_map(s)[s[i].0] == s[i].1,
    decreases s.len(),
{
    if i == s.len() - 1 {
    } else {
        assert(assoc_sorted(s.drop_last()));
        assert(s.drop_last()[i] == s[i]);
        lemma_assoc_map_value(s.drop_last(), i);
        assert(bytes_lt(s[i].0, s[s.len() - 1].0));
        lemma_bytes_lt_irrefl(s[i].0);
        assert(s[i].0 != s.last().0);
    }
}

/// Every entry of an insertion either carries the inserted key or is an
/// entry of the original sequence.
pub proof fn lemma_assoc_insert_keys<V>(s: Seq<(Seq<u8>, V)>, k: Seq<u8>, v: V)
    ensures
        forall|j: int|
            0 <= j < assoc_insert(s, k, v).len() ==> (#[trigger] assoc_insert(s, k, v)[j] == (k, v)
                || exists|i: int| 0 <= i < s.len() && s[i] == assoc_insert(s, k, v)[j]),
    decreases s.len(),
{
    let out = assoc_insert(s, k, v);
    if s.len() == 0 {
    } else if bytes_lt(k, s[0].0) {
        assert forall|j: int| 0 <= j < out.len() && out[j] != (k, v) implies exists|i: int|
            0 <= i < s.len() && s[i] == out[j] by {
            assert(s[j - 1] == out[j]);
        }
    } else if k == s[0].0 {
        assert forall|j: int| 0 <= j < out.len() && out[j] != (k, v) implies exists|i: int|
            0 <= i < s.len() && s[i] == out[j] by {
            assert(s[j] == out[j]);
        }
    } else {
        lemma_assoc_insert_keys(s.drop_first(), k, v);
        let tail_out = assoc_insert(s.drop_first(), k, v);
        assert forall|j: int| 0 <= j < out.len() && out[j] != (k, v) implies exists|i: int|
            0 <= i < s.len() && s[i] == out[j] by {
            if j == 0 {
                assert(s[0] == out[0]);
            } else {
                assert(out[j] == tail_out[j - 1]);
                let idx = choose|idx: int|
                    0 <= idx < s.drop_first().len() && s.drop_first()[idx] == tail_out[j - 1];
                assert(s[idx + 1] == out[j]);
            }
        }
    }
}

/// Inserting keeps the entries sorted.
pub proof fn lemma_assoc_insert_sorted<V>(s: Seq<(Seq<u8>, V)>, k: Seq<u8>, v: V)
    requires
        assoc_sorted(s),
    ensures
        assoc_sorted(assoc_insert(s, k, v)),
    decreases s.len(),
{
    let out = assoc_insert(s, k, v);
    if s.len() == 0 {
    } else if bytes_lt(k, s[0].0) {
        assert forall|i: int, j: int| 0 <= i < j < out.len() implies bytes_lt(
            out[i].0,
            out[j].0,
        ) by {
            if i == 0 {
                if j > 1 {
                    lemma_bytes_lt_trans(k, s[0].0, s[j - 1].0);
                }
            }
        }
    } else if k == s[0].0 {
        assert forall|i: int, j: int| 0 <= i < j < out.len() implies bytes_lt(
            out[i].0,
            out[j].0,
        ) by {
            if i == 0 {
                assert(out[j] == s[j]);
            }
        }
    } else {
        lemma_bytes_lt_connex(k, s[0].0);
        assert(bytes_lt(s[0].0, k));
        let tail = s.drop_first();
        assert(assoc_sorted(tail));
        lemma_assoc_insert_sorted(tail, k, v);
        let tail_out = assoc_insert(tail, k, v);
        lemma_assoc_insert_keys(tail, k, v);
        assert forall|i: int, j: int| 0 <= i < j < out.len() implies bytes_lt(
            out[i].0,
            out[j].0,
        ) by {
            if i == 0 {
                assert(out[j] == tail_out[j - 1]);
                if tail_out[j - 1].0 == k {
                    assert(bytes_lt(s[0].0, k));
                } else {
                    let idx = choose|idx: int|
                        0 <= idx < tail.len() && tail[idx] == tail_out[j - 1];
                    assert(bytes_lt(s[0].0, tail[idx].0));
                }
            } else {
                assert(out[i] == tail_out[i - 1] && out[j] == tail_out[j - 1]);
            }
        }
    }
}

/// The denoted map of a sequence whose head key is carried by no other
/// entry: the head is never overridden.
proof fn lemma_assoc_map_head<V>(p: (Seq<u8>, V), tail: Seq<(Seq<u8>, V)>)
    requires
        forall|i: int| #![trigger tail[i]] 0 <= i < tail.len() ==> p.0 != tail[i].0,
    ensures
        assoc_map(seq![p] + tail) == assoc_map(tail).insert(p.0, p.1),
    decreases tail.len(),
{
    let s = seq![p] + tail;
    if tail.len() == 0 {
        assert(s.drop_last() =~= Seq::<(Seq<u8>, V)>::empty());
        assert(s.last() == p);
        assert(assoc_map(tail) == Map::<Seq<u8>, V>::empty());
        assert(assoc_map(Seq::<(Seq<u8>, V)>::empty()) == Map::<Seq<u8>, V>::empty());
        assert(assoc_map(s.drop_last()) == Map::<Seq<u8>, V>::empty());
        assert(assoc_map(s) == Map::<Seq<u8>, V>::empty().insert(p.0, p.1));
    } else {
        assert(s.drop_last() =~= seq![p] + tail.drop_last());
        assert(s.last() == tail.last());
        assert forall|i: int| 0 <= i < tail.drop_last().len() implies p.0 != (#[trigger] tail.drop_last()[i]).0 by {
            assert(tail.drop_last()[i] == tail[i]);
        }
        lemma_assoc_map_head(p, tail.drop_last());
        let m = assoc_map(tail.drop_last());
        let l = tail.last();
        assert(tail[tail.len() - 1] == l);
        assert(p.0 != l.0);
        assert(assoc_map(s) == m.insert(p.0, p.1).insert(l.0, l.1));
        assert(assoc_map(tail).insert(p.0, p.1) == m.insert(l.0, l.1).insert(p.0, p.1));
        assert(m.insert(p.0, p.1).insert(l.0, l.1) =~= m.insert(l.0, l.1).insert(p.0, p.1));
    }
}

/// Insertion updates the denoted map by one plain insertion.
pub proof fn lemma_assoc_insert_map<V>(s: Seq<(Seq<u8>, V)>, k: Seq<u8>, v: V)
    requires
        assoc_sorted(s),
    ensures
        assoc_map(assoc_insert(s, k, v)) == assoc_map(s).insert(k, v),
    decreases s.len(),
{
    let out = assoc_insert(s, k, v);
    if s.len() == 0 {
        assert(out.drop_last() =~= Seq::<(Seq<u8>, V)>::empty());
        assert(out.last() == (k, v));
        assert(assoc_map(Seq::<(Seq<u8>, V)>::empty()) == Map::<Seq<u8>, V>::empty());
        assert(assoc_map(out.drop_last()) == Map::<Seq<u8>, V>::empty());
        assert(assoc_map(out) == Map::<Seq<u8>, V>::empty().insert(k, v));
    } else if bytes_lt(k, s[0].0) {
        assert forall|i: int| 0 <= i < s.len() implies k != (#[trigger] s[i]).0 by {
            if i > 0 {
                lemma_bytes_lt_trans(k, s[0].0, s[i].0);
            }
            lemma_bytes_lt_irrefl(k);
        }
        lemma_assoc_map_head((k, v), s);
    } else if k == s[0].0 {
        let tail = s.drop_first();
        assert forall|i: int| 0 <= i < tail.len() implies k != (#[trigger] tail[i]).0 by {
            assert(tail[i] == s[i + 1]);
            assert(bytes_lt(s[0].0, s[i + 1].0));
            lemma_bytes_lt_irrefl(k);
        }
        lemma_assoc_map_head((k, v), tail);
        lemma_assoc_map_head(s[0], tail);
        assert(s =~= seq![s[0]] + tail);
        let m = assoc_map(tail);
        assert(assoc_map(out) == m.insert(k, v));
        assert(assoc_map(s) == m.insert(k, s[0].1));
        assert(m.insert(k, s[0].1).insert(k, v) =~= m.insert(k, v));
    } else {
        lemma_bytes_lt_connex(k, s[0].0);
        assert(bytes_lt(s[0].0, k));
        let tail = s.drop_first();
        assert(assoc_sorted(tail));
        lemma_assoc_insert_map(tail, k, v);
        let tail_out = assoc_insert(tail, k, v);
        lemma_assoc_insert_keys(tail, k, v);
        assert forall|i: int| 0 <= i < tail_out.len() implies s[0].0 != (
        #[trigger] tail_out[i]).0 by {
            lemma_bytes_lt_irrefl(s[0].0);
            if tail_out[i].0 == k {
            } else {
                let idx = choose|idx: int| 0 <= idx < tail.len() && tail[idx] == tail_out[i];
                assert(tail[idx] == s[idx + 1]);
                assert(bytes_lt(s[0].0, s[idx + 1].0));
            }
        }
        lemma_assoc_map_head(s[0], tail_out);
        assert forall|i: int| 0 <= i < tail.len() implies s[0].0 != (#[trigger] tail[i]).0 by {
            assert(tail[i] == s[i + 1]);
            assert(bytes_lt(s[0].0, s[i + 1].0));
            lemma_bytes_lt_irrefl(s[0].0);
        }
        lemma_assoc_map_head(s[0], tail);
        assert(s =~= seq![s[0]] + tail);
        assert(out =~= seq![s[0]] + tail_out);
        let m = assoc_map(tail);
        assert(assoc_map(out) == m.insert(k, v).insert(s[0].0, s[0].1));
        assert(assoc_map(s).insert(k, v) == m.insert(s[0].0, s[0].1).insert(k, v));
        lemma_bytes_lt_irrefl(k);
        assert(k != s[0].0);
        assert(m.insert(k, v).insert(s[0].0, s[0].1) =~= m.insert(s[0].0, s[0].1).insert(k, v));
    }
}

/// A sorted association sequence is determined by the map it denotes.
pub proof fn lemma_sorted_same_map_equal<V>(s1: Seq<(Seq<u8>, V)>, s2: Seq<(Seq<u8>, V)>)
    requires
        assoc_sorted(s1),
        assoc_sorted(s2),
        assoc_map(s1) == assoc_map(s2),
    ensures
        s1 == s2,
    decreases s1.len(),
{
    if s1.len() == 0 {
        if s2.len() > 0 {
            lemma_assoc_map_value(s2, s2.len() - 1);
            lemma_assoc_map_contains(s1, s2.last().0);
            assert(false);
        }
        assert(s1 =~= s2);
    } else if s2.len() == 0 {
        lemma_assoc_map_value(s1, s1.len() - 1);
        lemma_assoc_map_contains(s2, s1.last().0);
        assert(false);
    } else {
        // the two last entries carry the same key: each last key occurs in
        // the other sequence, and anywhere but last it would be both below
        // and above the other last key
        let l1 = s1.last();
        let l2 = s2.last();
        lemma_assoc_map_value(s1, s1.len() - 1);
        lemma_assoc_map_value(s2, s2.len() - 1);
        lemma_assoc_map_contains(s2, l1.0);
        lemma_assoc_map_contains(s1, l2.0);
        let i2 = choose|i: int| 0 <= i < s2.len() && (#[trigger] s2[i]).0 == l1.0;
        let i1 = choose|i: int| 0 <= i < s1.len() && (#[trigger] s1[i]).0 == l2.0;
        if i2 == s2.len() - 1 || i1 == s1.len() - 1 {
            assert(l1.0 == l2.0);
        } else {
            assert(bytes_lt(s2[i2].0, l2.0));
            assert(bytes_lt(s1[i1].0, l1.0));
            lemma_bytes_lt_asym(l1.0, l2.0);
            assert(false);
        }
        assert(assoc_map(s1)[l1.0] == l1.1);
        assert(assoc_map(s2)[l1.0] == l2.1);
        assert(l1 == l2);
        let t1 = s1.drop_last();
        let t2 = s2.drop_last();
        assert(assoc_sorted(t1));
        assert(assoc_sorted(t2));
        // the last key occurs in neither tail
        assert(!assoc_map(t1).contains_key(l1.0)) by {
            lemma_assoc_map_contains(t1, l1.0);
            if exists|i: int| 0 <= i < t1.len() && (#[trigger] t1[i]).0 == l1.0 {
                let i = choose|i: int| 0 <= i < t1.len() && (#[trigger] t1[i]).0 == l1.0;
                assert(t1[i] == s1[i]);
                assert(bytes_lt(s1[i].0, l1.0));
                lemma_bytes_lt_irrefl(l1.0);
                assert(false);
            }
        }
        assert(!assoc_map(t2).contains_key(l1.0)) by {
            lemma_assoc_map_contains(t2, l1.0);
            if exists|i: int| 0 <= i < t2.len() && (#[trigger] t2[i]).0 == l1.0 {
                let i = choose|i: int| 0 <= i < t2.len() && (#[trigger] t2[i]).0 == l1.0;
                assert(t2[i] == s2[i]);
                assert(bytes_lt(s2[i].0, l1.0));
                lemma_bytes_lt_irrefl(l1.0);
                assert(false);
            }
        }
        assert(assoc_map(s1) == assoc_map(t1).insert(l1.0, l1.1));
        assert(assoc_map(s2) == assoc_map(t2).insert(l1.0, l1.1));
        assert(assoc_map(t1) =~= assoc_map(t2)) by {
            assert forall|k: Seq<u8>| #![trigger assoc_map(t1).contains_key(k)]
                true implies assoc_map(t1).contains_key(k) == assoc_map(t2).contains_key(k) && (
            assoc_map(t1).contains_key(k) ==> assoc_map(t1)[k] == assoc_map(t2)[k]) by {
                if k != l1.0 {
                    assert(assoc_map(s1).contains_key(k) == assoc_map(t1).contains_key(k));
                    assert(assoc_map(s2).contains_key(k) == assoc_map(t2).contains_key(k));
                    if assoc_map(t1).contains_key(k) {
                        assert(assoc_map(t1)[k] == assoc_map(s1)[k]);
                        assert(assoc_map(t2)[k] == assoc_map(s2)[k]);
                    }
                }
            }
        }
        lemma_sorted_same_map_equal(t1, t2);
        assert(s1.len() == s2.len());
        assert forall|i: int| 0 <= i < s1.len() implies s1[i] == s2[i] by {
            if i < s1.len() - 1 {
                assert(s1[i] == t1[i]);
                assert(s2[i] == t2[i]);
            }
        }
        assert(s1 =~= s2);
    }
}

/// Canonicalizing always yields a sorted sequence denoting the same map.
pub proof fn lemma_assoc_canon_sorted<V>(ps: Seq<(Seq<u8>, V)>)
    ensures
        assoc_sorted(assoc_canon(ps)),
        assoc_map(assoc_canon(ps)) == assoc_map(ps),
    decreases ps.len(),
{
    if ps.len() > 0 {
        lemma_assoc_canon_sorted(ps.drop_last());
        lemma_assoc_insert_sorted(assoc_canon(ps.drop_last()), ps.last().0, ps.last().1);
        lemma_assoc_insert_map(assoc_canon(ps.drop_last()), ps.last().0, ps.last().1);
    }
}

/// Inserting a key greater than every present key appends the pair.
pub proof fn lemma_assoc_insert_append<V>(s: Seq<(Seq<u8>, V)>, k: Seq<u8>, v: V)
    requires
        forall|i: int| #![trigger s[i]] 0 <= i < s.len() ==> bytes_lt(s[i].0, k),
    ensures
        assoc_insert(s, k, v) == s + seq![(k, v)],
    decreases s.len(),
{
    if s.len() == 0 {
        assert(assoc_insert(s, k, v) =~= s + seq![(k, v)]);
    } else {
        lemma_bytes_lt_asym(s[0].0, k);
        lemma_bytes_lt_irrefl(k);
        assert(!bytes_lt(k, s[0].0) && k != s[0].0);
        assert forall|i: int| 0 <= i < s.drop_first().len() implies bytes_lt(
            (#[trigger] s.drop_first()[i]).0,
            k,
        ) by {
            assert(s.drop_first()[i] == s[i + 1]);
        }
        lemma_assoc_insert_append(s.drop_first(), k, v);
        assert(seq![s[0]] + (s.drop_first() + seq![(k, v)]) =~= s + seq![(k, v)]);
    }
}

/// A sorted sequence is already canonical.
pub proof fn lemma_assoc_canon_sorted_id<V>(s: Seq<(Seq<u8>, V)>)
    requires
        assoc_sorted(s),
    ensures
        assoc_canon(s) == s,
    decreases s.len(),
{
    if s.len() > 0 {
        let t = s.drop_last();
        assert(assoc_sorted(t));
        lemma_assoc_canon_sorted_id(t);
        assert forall|i: int| 0 <= i < t.len() implies bytes_lt((#[trigger] t[i]).0, s.last().0) by {
            assert(t[i] == s[i]);
            assert(s[s.len() - 1] == s.last());
        }
        lemma_assoc_insert_append(t, s.last().0, s.last().1);
        assert(t + seq![s.last()] =~= s);
    }
}

/// Splitting an insertion past a scanned prefix whose keys all come before
/// the inserted key.
pub proof fn lemma_assoc_insert_skip<V>(s: Seq<(Seq<u8>, V)>, k: Seq<u8>, v: V, idx: int)
    requires
        0 <= idx <= s.len(),
        forall|j: int| #![trigger s[j]] 0 <= j < idx ==> bytes_lt(s[j].0, k),
    ensures
        assoc_insert(s, k, v) == s.take(idx) + assoc_insert(s.skip(idx), k, v),
    decreases idx,
{
    if idx == 0 {
        assert(s.skip(0) =~= s);
        assert(s.take(0) + assoc_insert(s, k, v) =~= assoc_insert(s, k, v));
    } else {
        lemma_bytes_lt_asym(s[0].0, k);
        lemma_bytes_lt_irrefl(k);
        assert(!bytes_lt(k, s[0].0) && k != s[0].0);
        let t = s.drop_first();
        assert forall|j: int| 0 <= j < idx - 1 implies bytes_lt((#[trigger] t[j]).0, k) by {
            assert(t[j] == s[j + 1]);
        }
        lemma_assoc_insert_skip(t, k, v, idx - 1);
        assert(t.take(idx - 1) =~= s.take(idx).drop_first());
        assert(t.skip(idx - 1) =~= s.skip(idx));
        assert(seq![s[0]] + (s.take(idx).drop_first() + assoc_insert(s.skip(idx), k, v)) =~= s.take(
            idx,
        ) + assoc_insert(s.skip(idx), k, v));
    }
}

// ---------------------------------------------------------------------------
// Executable comparison
// ---------------------------------------------------------------------------

/// `bytes_lt` looks only at the part after a shared prefix.
pub proof fn lemma_bytes_lt_common_prefix(a: Seq<u8>, b: Seq<u8>, i: int)
    requires
        0 <= i <= a.len(),
        i <= b.len(),
        forall|j: int| 0 <= j < i ==> a[j] == b[j],
    ensures
        bytes_lt(a, b) == bytes_lt(a.skip(i), b.skip(i)),
    decreases i,
{
    if i > 0 {
        assert(a.len() > 0 && b.len() > 0 && a[0] == b[0]);
        assert forall|j: int| 0 <= j < i - 1 implies a.drop_first()[j] == b.drop_first()[j] by {
            assert(a.drop_first()[j] == a[j + 1]);
            assert(b.drop_first()[j] == b[j + 1]);
        }
        lemma_bytes_lt_common_prefix(a.drop_first(), b.drop_first(), i - 1);
        assert(a.drop_first().skip(i - 1) =~= a.skip(i));
        assert(b.drop_first().skip(i - 1) =~= b.skip(i));
    } else {
        assert(a.skip(0) =~= a);
        assert(b.skip(0) =~= b);
    }
}

/// Byte-lexicographic comparison of two byte slices.
pub fn slice_bytes_lt(a: &[u8], b: &[u8]) -> (r: bool)
    ensures
        r == bytes_lt(a@, b@),
{
    let alen: usize = a.len();
    let blen: usize = b.len();
    let mut i: usize = 0;
    while i < alen && i < blen
        invariant
            i <= alen == a@.len(),
            i <= blen == b@.len(),
            forall|j: int| 0 <= j < i ==> a@[j] == b@[j],
        decreases alen - i,
    {
        if a[i] < b[i] {
            proof {
                lemma_bytes_lt_common_prefix(a@, b@, i as int);
                assert(a@.skip(i as int)[0] == a@[i as int]);
                assert(b@.skip(i as int)[0] == b@[i as int]);
            }
            return true;
        }
        if a[i] > b[i] {
            proof {
                lemma_bytes_lt_common_prefix(a@, b@, i as int);
                assert(a@.skip(i as int)[0] == a@[i as int]);
                assert(b@.skip(i as int)[0] == b@[i as int]);
            }
            return false;
        }
        i += 1;
    }
    proof {
        lemma_bytes_lt_common_prefix(a@, b@, i as int);
        assert(a@.skip(i as int).len() == a@.len() - i);
        assert(b@.skip(i as int).len() == b@.len() - i);
    }
    alen < blen
}

/// The association sequence a vector of string-keyed pairs stands for:
/// each key as its UTF-8 bytes, each value as its deep view.
pub open spec fn string_pairs_view<V: DeepView>(s: Seq<(String, V)>) -> Seq<(Seq<u8>, V::V)> {
    s.map_values(|p: (String, V)| (encode_utf8(p.0@), p.1.deep_view()))
}

/// Insert a pair into a vector kept in strictly ascending key order,
/// replacing the value when the key is already present.
#[verifier::loop_isolation(false)]
pub fn insert_string_pair<V: DeepView>(entries: &mut Vec<(String, V)>, key: String, value: V)
    requires
        assoc_sorted(string_pairs_view(old(entries)@)),
    ensures
        string_pairs_view(final(entries)@) == assoc_insert(
            string_pairs_view(old(entries)@),
            encode_utf8(key@),
            value.deep_view(),
        ),
        assoc_sorted(string_pairs_view(final(entries)@)),
{
    let ghost s0 = string_pairs_view(entries@);
    let ghost kb = encode_utf8(key@);
    let ghost vv = value.deep_view();
    proof {
        lemma_assoc_insert_sorted(s0, kb, vv);
    }
    let mut idx: usize = 0;
    while idx < entries.len() && string_key_lt(&entries[idx].0, &key)
        invariant
            idx <= entries@.len(),
            entries@ == old(entries)@,
            forall|j: int| #![trigger s0[j]] 0 <= j < idx ==> bytes_lt(s0[j].0, kb),
        decreases entries@.len() - idx,
    {
        proof {
            assert(s0[idx as int] == (encode_utf8(entries@[idx as int].0@),
            entries@[idx as int].1.deep_view()));
        }
        idx += 1;
    }
    proof {
        lemma_assoc_insert_skip(s0, kb, vv, idx as int);
    }
    if idx < entries.len() && string_key_eq(&entries[idx].0, &key) {
        proof {
            assert(s0.skip(idx as int)[0] == s0[idx as int]);
            assert(s0[idx as int] == (encode_utf8(entries@[idx as int].0@),
            entries@[idx as int].1.deep_view()));
            assert(s0[idx as int].0 == kb);
            assert(assoc_insert(s0.skip(idx as int), kb, vv) == seq![(kb, vv)] + s0.skip(
                idx as int,
            ).drop_first());
        }
        entries.remove(idx);
        entries.insert(idx, (key, value));
        proof {
            assert(string_pairs_view(entries@) =~= s0.take(idx as int) + (seq![(kb, vv)]
                + s0.skip(idx as int).drop_first()));
        }
    } else {
        proof {
            if idx < s0.len() {
                assert(s0.skip(idx as int)[0] == s0[idx as int]);
                assert(s0[idx as int] == (encode_utf8(entries@[idx as int].0@),
                entries@[idx as int].1.deep_view()));
                assert(!bytes_lt(s0[idx as int].0, kb));
                assert(kb != s0[idx as int].0);
                lemma_bytes_lt_connex(kb, s0[idx as int].0);
                assert(bytes_lt(kb, s0[idx as int].0));
                assert(assoc_insert(s0.skip(idx as int), kb, vv) == seq![(kb, vv)] + s0.skip(
                    idx as int,
                ));
            } else {
                assert(s0.skip(idx as int) =~= Seq::<(Seq<u8>, V::V)>::empty());
                assert(assoc_insert(s0.skip(idx as int), kb, vv) == seq![(kb, vv)]);
                assert(seq![(kb, vv)] =~= seq![(kb, vv)] + s0.skip(idx as int));
            }
        }
        entries.insert(idx, (key, value));
        proof {
            assert(string_pairs_view(entries@) =~= s0.take(idx as int) + (seq![(kb, vv)]
                + s0.skip(idx as int)));
        }
    }
}

/// String keys compare by their UTF-8 encodings.
pub fn string_key_lt(a: &String, b: &String) -> (r: bool)
    ensures
        r == bytes_lt(encode_utf8(a@), encode_utf8(b@)),
{
    slice_bytes_lt(a.as_str().as_bytes(), b.as_str().as_bytes())
}

/// String keys are equal exactly when their UTF-8 encodings are.
pub fn string_key_eq(a: &String, b: &String) -> (r: bool)
    ensures
        r == (encode_utf8(a@) == encode_utf8(b@)),
{
    let r = a.eq(b);
    proof {
        if encode_utf8(a@) == encode_utf8(b@) {
            lemma_encode_utf8_injective(a@, b@);
        }
    }
    r
}

} // verus!
