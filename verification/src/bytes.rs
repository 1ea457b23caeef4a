//! Byte-string utilities: equality and the lexicographic order used to keep
//! boundary sets and signature groups in a canonical, deterministic order.

use vstd::prelude::*;

verus! {

/// Result of a three-way comparison.
#[derive(Clone, Copy, Debug, PartialEq, Eq, Structural)]
pub enum Comparison {
    Less,
    Equal,
    Greater,
}

/// Strict lexicographic order on byte strings, byte by byte, with a proper
/// prefix ordered before its extensions. This matches the order Rust gives
/// to `[u8]` and to the UTF-8 bytes of `str`.
pub open spec fn lex_lt(a: Seq<u8>, b: Seq<u8>) -> bool
    decreases a.len(),
{
    if b.len() == 0 {
        false
    } else if a.len() == 0 {
        true
    } else if a[0] != b[0] {
        a[0] < b[0]
    } else {
        lex_lt(a.drop_first(), b.drop_first())
    }
}

pub proof fn lemma_lex_lt_irreflexive(a: Seq<u8>)
    ensures
        !lex_lt(a, a),
    decreases a.len(),
{
    if a.len() > 0 {
        lemma_lex_lt_irreflexive(a.drop_first());
    }
}

/// Any two byte strings are comparable: one is smaller, or they are equal.
pub proof fn lemma_lex_lt_connected(a: Seq<u8>, b: Seq<u8>)
    ensures
        lex_lt(a, b) || lex_lt(b, a) || a == b,
    decreases a.len(),
{
    if a.len() == 0 && b.len() == 0 {
        assert(a =~= b);
    } else if a.len() > 0 && b.len() > 0 && a[0] == b[0] {
        lemma_lex_lt_connected(a.drop_first(), b.drop_first());
        if a.drop_first() == b.drop_first() {
            assert(a.drop_first().len() == b.drop_first().len());
            assert(a.len() == b.len());
            assert forall|i: int| 0 <= i < a.len() implies a[i] == b[i] by {
                if i > 0 {
                    assert(a.drop_first()[i - 1] == a[i]);
                    assert(b.drop_first()[i - 1] == b[i]);
                    assert(a.drop_first()[i - 1] == b.drop_first()[i - 1]);
                }
            }
            assert(a =~= b);
        }
    }
}

pub proof fn lemma_lex_lt_asymmetric(a: Seq<u8>, b: Seq<u8>)
    requires
        lex_lt(a, b),
    ensures
        !lex_lt(b, a),
    decreases a.len(),
{
    if a.len() > 0 && b.len() > 0 && a[0] == b[0] {
        lemma_lex_lt_asymmetric(a.drop_first(), b.drop_first());
    }
}

pub proof fn lemma_lex_lt_transitive(a: Seq<u8>, b: Seq<u8>, c: Seq<u8>)
    requires
        lex_lt(a, b),
        lex_lt(b, c),
    ensures
        lex_lt(a, c),
    decreases a.len(),
{
    if a.len() > 0 && b.len() > 0 && c.len() > 0 && a[0] == b[0] && b[0] == c[0] {
        lemma_lex_lt_transitive(a.drop_first(), b.drop_first(), c.drop_first());
    }
}

/// If `a` and `b` agree on their first `i` bytes and differ at position `i`
/// (or `a` ends there), then `a` is lexicographically smaller.
pub proof fn lemma_lex_lt_at_index(a: Seq<u8>, b: Seq<u8>, i: int)
    requires
        0 <= i <= a.len(),
        i <= b.len(),
        forall|j: int| 0 <= j < i ==> a[j] == b[j],
        (i < a.len() && i < b.len() && a[i] < b[i]) || (i == a.len() && i < b.len()),
    ensures
        lex_lt(a, b),
    decreases i,
{
    if i > 0 {
        lemma_lex_lt_at_index(a.drop_first(), b.drop_first(), i - 1);
    }
}

/// Three-way lexicographic comparison of two byte strings.
pub fn bytes_cmp(a: &Vec<u8>, b: &Vec<u8>) -> (r: Comparison)
    ensures
        r is Less <==> lex_lt(a@, b@),
        r is Greater <==> lex_lt(b@, a@),
        r is Equal <==> a@ == b@,
{
    let a_len: usize = a.len();
    let b_len: usize = b.len();
    let n: usize = if a_len < b_len {
        a_len
    } else {
        b_len
    };
    let mut i: usize = 0;
    while i < n
        invariant
            0 <= i <= n,
            n <= a@.len(),
            n <= b@.len(),
            n == a@.len() || n == b@.len(),
            forall|j: int| 0 <= j < i ==> a@[j] == b@[j],
        decreases n - i,
    {
        let x = a[i];
        let y = b[i];
        if x < y {
            proof {
                lemma_lex_lt_at_index(a@, b@, i as int);
                lemma_lex_lt_asymmetric(a@, b@);
                lemma_lex_lt_irreflexive(a@);
            }
            return Comparison::Less;
        }
        if y < x {
            proof {
                lemma_lex_lt_at_index(b@, a@, i as int);
                lemma_lex_lt_asymmetric(b@, a@);
                lemma_lex_lt_irreflexive(b@);
            }
            return Comparison::Greater;
        }
        i = i + 1;
    }
    if a_len < b_len {
        proof {
            lemma_lex_lt_at_index(a@, b@, n as int);
            lemma_lex_lt_asymmetric(a@, b@);
        }
        Comparison::Less
    } else if b_len < a_len {
        proof {
            lemma_lex_lt_at_index(b@, a@, n as int);
            lemma_lex_lt_asymmetric(b@, a@);
        }
        Comparison::Greater
    } else {
        proof {
            assert(a@ =~= b@);
            lemma_lex_lt_irreflexive(a@);
        }
        Comparison::Equal
    }
}

/// Equality of two byte strings.
pub fn bytes_eq(a: &Vec<u8>, b: &Vec<u8>) -> (r: bool)
    ensures
        r <==> a@ == b@,
{
    let r = bytes_cmp(a, b);
    match r {
        Comparison::Equal => true,
        _ => false,
    }
}

/// An owned copy of a byte string.
pub fn clone_bytes(v: &Vec<u8>) -> (r: Vec<u8>)
    ensures
        r@ == v@,
{
    let n: usize = v.len();
    let mut r: Vec<u8> = Vec::new();
    let mut i: usize = 0;
    while i < n
        invariant
            0 <= i <= n,
            n == v@.len(),
            r@ == v@.take(i as int),
        decreases n - i,
    {
        r.push(v[i]);
        proof {
            assert(v@.take(i + 1) =~= v@.take(i as int).push(v@[i as int]));
        }
        i = i + 1;
    }
    proof {
        assert(v@.take(n as int) =~= v@);
    }
    r
}

/// The sequence of views of a vector of byte strings.
pub open spec fn deep(s: Seq<Vec<u8>>) -> Seq<Seq<u8>> {
    s.map_values(|v: Vec<u8>| v@)
}

/// Strict lexicographic order on sequences of byte strings: element by
/// element under `lex_lt`, with a proper prefix ordered before its
/// extensions. This is the order an ordered set of byte strings gets when
/// compared by its sorted elements.
pub open spec fn lex_seq_lt(a: Seq<Seq<u8>>, b: Seq<Seq<u8>>) -> bool
    decreases a.len(),
{
    if b.len() == 0 {
        false
    } else if a.len() == 0 {
        true
    } else if a[0] != b[0] {
        lex_lt(a[0], b[0])
    } else {
        lex_seq_lt(a.drop_first(), b.drop_first())
    }
}

pub proof fn lemma_lex_seq_lt_irreflexive(a: Seq<Seq<u8>>)
    ensures
        !lex_seq_lt(a, a),
    decreases a.len(),
{
    if a.len() > 0 {
        lemma_lex_seq_lt_irreflexive(a.drop_first());
    }
}

/// Any two sequences of byte strings are comparable.
pub proof fn lemma_lex_seq_lt_connected(a: Seq<Seq<u8>>, b: Seq<Seq<u8>>)
    ensures
        lex_seq_lt(a, b) || lex_seq_lt(b, a) || a == b,
    decreases a.len(),
{
    if a.len() == 0 && b.len() == 0 {
        assert(a =~= b);
    } else if a.len() > 0 && b.len() > 0 {
        if a[0] != b[0] {
            lemma_lex_lt_connected(a[0], b[0]);
        } else {
            lemma_lex_seq_lt_connected(a.drop_first(), b.drop_first());
            if a.drop_first() == b.drop_first() {
                assert(a.drop_first().len() == b.drop_first().len());
                assert(a.len() == b.len());
                assert forall|i: int| 0 <= i < a.len() implies a[i] == b[i] by {
                    if i > 0 {
                        assert(a.drop_first()[i - 1] == a[i]);
                        assert(b.drop_first()[i - 1] == b[i]);
                    }
                }
                assert(a =~= b);
            }
        }
    }
}

pub proof fn lemma_lex_seq_lt_asymmetric(a: Seq<Seq<u8>>, b: Seq<Seq<u8>>)
    requires
        lex_seq_lt(a, b),
    ensures
        !lex_seq_lt(b, a),
    decreases a.len(),
{
    if a.len() > 0 && b.len() > 0 {
        if a[0] != b[0] {
            lemma_lex_lt_asymmetric(a[0], b[0]);
        } else {
            lemma_lex_seq_lt_asymmetric(a.drop_first(), b.drop_first());
        }
    }
}

pub proof fn lemma_lex_seq_lt_transitive(a: Seq<Seq<u8>>, b: Seq<Seq<u8>>, c: Seq<Seq<u8>>)
    requires
        lex_seq_lt(a, b),
        lex_seq_lt(b, c),
    ensures
        lex_seq_lt(a, c),
    decreases a.len(),
{
    if a.len() > 0 && b.len() > 0 && c.len() > 0 {
        if a[0] == b[0] && b[0] == c[0] {
            lemma_lex_seq_lt_transitive(a.drop_first(), b.drop_first(), c.drop_first());
        } else if a[0] == b[0] {
            // b[0] < c[0], so a[0] < c[0] and they differ.
            lemma_lex_lt_irreflexive(b[0]);
        } else if b[0] == c[0] {
            lemma_lex_lt_irreflexive(a[0]);
        } else {
            lemma_lex_lt_transitive(a[0], b[0], c[0]);
            if a[0] == c[0] {
                lemma_lex_lt_asymmetric(a[0], b[0]);
            }
        }
    }
}

/// If `a` and `b` agree on their first `i` elements and differ at position
/// `i` (or `a` ends there), then `a` is lexicographically smaller.
pub proof fn lemma_lex_seq_lt_at_index(a: Seq<Seq<u8>>, b: Seq<Seq<u8>>, i: int)
    requires
        0 <= i <= a.len(),
        i <= b.len(),
        forall|j: int| 0 <= j < i ==> a[j] == b[j],
        (i < a.len() && i < b.len() && a[i] != b[i] && lex_lt(a[i], b[i])) || (i == a.len() && i
            < b.len()),
    ensures
        lex_seq_lt(a, b),
    decreases i,
{
    if i > 0 {
        lemma_lex_seq_lt_at_index(a.drop_first(), b.drop_first(), i - 1);
    }
}

/// Three-way lexicographic comparison of two vectors of byte strings.
pub fn byte_seqs_cmp(a: &Vec<Vec<u8>>, b: &Vec<Vec<u8>>) -> (r: Comparison)
    ensures
        r is Less <==> lex_seq_lt(deep(a@), deep(b@)),
        r is Greater <==> lex_seq_lt(deep(b@), deep(a@)),
        r is Equal <==> deep(a@) == deep(b@),
{
    let a_len: usize = a.len();
    let b_len: usize = b.len();
    let n: usize = if a_len < b_len {
        a_len
    } else {
        b_len
    };
    let mut i: usize = 0;
    while i < n
        invariant
            0 <= i <= n,
            n <= a@.len(),
            n <= b@.len(),
            n == a@.len() || n == b@.len(),
            forall|j: int| 0 <= j < i ==> deep(a@)[j] == deep(b@)[j],
        decreases n - i,
    {
        match bytes_cmp(&a[i], &b[i]) {
            Comparison::Less => {
                proof {
                    lemma_lex_lt_irreflexive(a@[i as int]@);
                    lemma_lex_seq_lt_at_index(deep(a@), deep(b@), i as int);
                    lemma_lex_seq_lt_asymmetric(deep(a@), deep(b@));
                    lemma_lex_seq_lt_irreflexive(deep(a@));
                }
                return Comparison::Less;
            },
            Comparison::Greater => {
                proof {
                    lemma_lex_lt_irreflexive(b@[i as int]@);
                    lemma_lex_seq_lt_at_index(deep(b@), deep(a@), i as int);
                    lemma_lex_seq_lt_asymmetric(deep(b@), deep(a@));
                    lemma_lex_seq_lt_irreflexive(deep(b@));
                }
                return Comparison::Greater;
            },
            Comparison::Equal => {},
        }
        i = i + 1;
    }
    if a_len < b_len {
        proof {
            lemma_lex_seq_lt_at_index(deep(a@), deep(b@), n as int);
            lemma_lex_seq_lt_asymmetric(deep(a@), deep(b@));
        }
        Comparison::Less
    } else if b_len < a_len {
        proof {
            lemma_lex_seq_lt_at_index(deep(b@), deep(a@), n as int);
            lemma_lex_seq_lt_asymmetric(deep(b@), deep(a@));
        }
        Comparison::Greater
    } else {
        proof {
            assert(deep(a@) =~= deep(b@));
            lemma_lex_seq_lt_irreflexive(deep(a@));
        }
        Comparison::Equal
    }
}

/// A sequence of byte strings that is strictly ascending under `lex_lt`.
pub open spec fn strictly_sorted(s: Seq<Seq<u8>>) -> bool {
    forall|i: int, j: int| 0 <= i < j < s.len() ==> lex_lt(#[trigger] s[i], #[trigger] s[j])
}

/// Two strictly sorted sequences holding the same set of byte strings are
/// the same sequence: the sorted form of a set is canonical.
pub proof fn lemma_strictly_sorted_same_set(a: Seq<Seq<u8>>, b: Seq<Seq<u8>>)
    requires
        strictly_sorted(a),
        strictly_sorted(b),
        a.to_set() == b.to_set(),
    ensures
        a == b,
    decreases a.len(),
{
    if a.len() == 0 {
        if b.len() > 0 {
            assert(b.to_set().contains(b[0]));
            assert(a.to_set().contains(b[0]));
        }
        assert(a =~= b);
    } else if b.len() == 0 {
        assert(a.to_set().contains(a[0]));
        assert(b.to_set().contains(a[0]));
    } else {
        // Both heads are the least element of the common set, so they agree.
        assert(a.to_set().contains(b[0]));
        let ia = choose|k: int| 0 <= k < a.len() && a[k] == b[0];
        assert(b.to_set().contains(a[0]));
        let ib = choose|k: int| 0 <= k < b.len() && b[k] == a[0];
        if a[0] != b[0] {
            assert(ia > 0 && ib > 0);
            assert(lex_lt(a[0], a[ia]));
            assert(lex_lt(b[0], b[ib]));
            lemma_lex_lt_asymmetric(a[0], b[0]);
            assert(false);
        }
        let at = a.drop_first();
        let bt = b.drop_first();
        assert forall|i: int| 0 <= i < at.len() implies lex_lt(a[0], #[trigger] at[i]) by {
            assert(at[i] == a[i + 1]);
        }
        assert forall|i: int| 0 <= i < bt.len() implies lex_lt(b[0], #[trigger] bt[i]) by {
            assert(bt[i] == b[i + 1]);
        }
        assert(at.to_set() =~= bt.to_set()) by {
            assert forall|x: Seq<u8>| at.to_set().contains(x) implies bt.to_set().contains(x) by {
                lemma_tail_membership(a, b, x);
            }
            assert forall|x: Seq<u8>| bt.to_set().contains(x) implies at.to_set().contains(x) by {
                lemma_tail_membership(b, a, x);
            }
        }
        assert(strictly_sorted(at)) by {
            assert forall|i: int, j: int| 0 <= i < j < at.len() implies lex_lt(
                #[trigger] at[i],
                #[trigger] at[j],
            ) by {
                assert(at[i] == a[i + 1] && at[j] == a[j + 1]);
            }
        }
        assert(strictly_sorted(bt)) by {
            assert forall|i: int, j: int| 0 <= i < j < bt.len() implies lex_lt(
                #[trigger] bt[i],
                #[trigger] bt[j],
            ) by {
                assert(bt[i] == b[i + 1] && bt[j] == b[j + 1]);
            }
        }
        lemma_strictly_sorted_same_set(at, bt);
        assert forall|i: int| 0 <= i < a.len() implies a[i] == b[i] by {
            if i > 0 {
                assert(at[i - 1] == bt[i - 1]);
            }
        }
        assert(a =~= b);
    }
}

/// The canonical (strictly sorted) layout of a set of byte strings. For a
/// set that is held by some strictly sorted sequence, that sequence is the
/// one canonical layout (see `lemma_strictly_sorted_same_set`).
pub open spec fn canon_of(s: Set<Seq<u8>>) -> Seq<Seq<u8>> {
    choose|q: Seq<Seq<u8>>| strictly_sorted(q) && q.to_set() == s
}

/// A set with a canonical layout: the layouts of all boundary sets built
/// by insertion are canonical.
pub open spec fn canonical_set(s: Set<Seq<u8>>) -> bool {
    strictly_sorted(canon_of(s)) && canon_of(s).to_set() == s
}

/// A strictly sorted layout, extended by one byte string at its sorted
/// position.
pub open spec fn sorted_insert(q: Seq<Seq<u8>>, v: Seq<u8>) -> Seq<Seq<u8>>
    decreases q.len(),
{
    if q.len() == 0 {
        seq![v]
    } else if v == q[0] {
        q
    } else if lex_lt(v, q[0]) {
        seq![v] + q
    } else {
        seq![q[0]] + sorted_insert(q.drop_first(), v)
    }
}

/// Sorted insertion keeps the layout strictly sorted and extends its set
/// by exactly the inserted element.
pub proof fn lemma_sorted_insert(q: Seq<Seq<u8>>, v: Seq<u8>)
    requires
        strictly_sorted(q),
    ensures
        strictly_sorted(sorted_insert(q, v)),
        sorted_insert(q, v).to_set() == q.to_set().insert(v),
    decreases q.len(),
{
    let w = sorted_insert(q, v);
    if q.len() == 0 {
        assert(w.to_set() =~= q.to_set().insert(v)) by {
            assert(w[0] == v);
        }
    } else if v == q[0] {
        assert(w.to_set() =~= q.to_set().insert(v)) by {
            assert(q[0] == v);
            assert(q.contains(v));
        }
    } else if lex_lt(v, q[0]) {
        assert forall|p: int, r: int| 0 <= p < r < w.len() implies lex_lt(
            #[trigger] w[p],
            #[trigger] w[r],
        ) by {
            if p == 0 {
                if r > 1 {
                    lemma_lex_lt_transitive(v, q[0], q[r - 1]);
                }
            } else {
                assert(w[p] == q[p - 1] && w[r] == q[r - 1]);
            }
        }
        assert(w.to_set() =~= q.to_set().insert(v)) by {
            assert forall|x: Seq<u8>| w.to_set().contains(x) implies q.to_set().insert(v).contains(
                x,
            ) by {
                let i = choose|i: int| 0 <= i < w.len() && w[i] == x;
                if i > 0 {
                    assert(q[i - 1] == x);
                }
            }
            assert forall|x: Seq<u8>| q.to_set().insert(v).contains(x) implies w.to_set().contains(
                x,
            ) by {
                if x == v {
                    assert(w[0] == x);
                } else {
                    let i = choose|i: int| 0 <= i < q.len() && q[i] == x;
                    assert(w[i + 1] == x);
                }
            }
        }
    } else {
        lemma_lex_lt_connected(v, q[0]);
        assert(lex_lt(q[0], v));
        let tail = q.drop_first();
        assert(strictly_sorted(tail)) by {
            assert(forall|i: int| 0 <= i < tail.len() ==> #[trigger] tail[i] == q[i + 1]);
        }
        lemma_sorted_insert(tail, v);
        let rec = sorted_insert(tail, v);
        assert(forall|i: int| 0 <= i < rec.len() ==> w[i + 1] == #[trigger] rec[i]);
        assert forall|p: int, r: int| 0 <= p < r < w.len() implies lex_lt(
            #[trigger] w[p],
            #[trigger] w[r],
        ) by {
            if p == 0 {
                assert(w[r] == rec[r - 1]);
                assert(rec.to_set().contains(rec[r - 1]));
                if rec[r - 1] == v {
                    assert(lex_lt(q[0], w[r]));
                } else {
                    assert(tail.to_set().contains(rec[r - 1]));
                    let i = choose|i: int| 0 <= i < tail.len() && tail[i] == rec[r - 1];
                    assert(tail[i] == q[i + 1]);
                    assert(lex_lt(q[0], q[i + 1]));
                }
            } else {
                assert(w[p] == rec[p - 1] && w[r] == rec[r - 1]);
            }
        }
        assert(w.to_set() =~= q.to_set().insert(v)) by {
            assert forall|x: Seq<u8>| w.to_set().contains(x) implies q.to_set().insert(v).contains(
                x,
            ) by {
                let i = choose|i: int| 0 <= i < w.len() && w[i] == x;
                if i == 0 {
                    assert(q[0] == x);
                } else {
                    assert(rec[i - 1] == x);
                    assert(rec.to_set().contains(x));
                    if x != v {
                        let j = choose|j: int| 0 <= j < tail.len() && tail[j] == x;
                        assert(q[j + 1] == x);
                    }
                }
            }
            assert forall|x: Seq<u8>| q.to_set().insert(v).contains(x) implies w.to_set().contains(
                x,
            ) by {
                if x == v || (q.contains(x) && x != q[0]) {
                    if x == v {
                        assert(rec.to_set().contains(x));
                    } else {
                        let i = choose|i: int| 0 <= i < q.len() && q[i] == x;
                        assert(i > 0);
                        assert(tail[i - 1] == x);
                        assert(tail.to_set().contains(x));
                        assert(rec.to_set().contains(x));
                    }
                    let j = choose|j: int| 0 <= j < rec.len() && rec[j] == x;
                    assert(w[j + 1] == x);
                } else {
                    assert(w[0] == x);
                }
            }
        }
    }
}

/// The empty set has a canonical layout: the empty one.
pub proof fn lemma_canonical_empty()
    ensures
        canonical_set(Set::<Seq<u8>>::empty()),
{
    let w = Seq::<Seq<u8>>::empty();
    assert(strictly_sorted(w));
    assert(w.to_set() =~= Set::<Seq<u8>>::empty());
    assert(exists|q: Seq<Seq<u8>>|
        strictly_sorted(q) && #[trigger] q.to_set() == Set::<Seq<u8>>::empty());
}

/// A set with a canonical layout keeps one under insertion.
pub proof fn lemma_canonical_insert(s: Set<Seq<u8>>, v: Seq<u8>)
    requires
        canonical_set(s),
    ensures
        canonical_set(s.insert(v)),
{
    lemma_sorted_insert(canon_of(s), v);
    let w = sorted_insert(canon_of(s), v);
    assert(strictly_sorted(w) && w.to_set() == s.insert(v));
    assert(exists|q: Seq<Seq<u8>>| strictly_sorted(q) && #[trigger] q.to_set() == s.insert(v));
}

/// Helper: with equal head elements and equal element sets, an element of
/// `a`'s tail is an element of `b`'s tail.
proof fn lemma_tail_membership(a: Seq<Seq<u8>>, b: Seq<Seq<u8>>, x: Seq<u8>)
    requires
        strictly_sorted(a),
        strictly_sorted(b),
        a.len() > 0,
        b.len() > 0,
        a[0] == b[0],
        a.to_set() == b.to_set(),
        a.drop_first().to_set().contains(x),
    ensures
        b.drop_first().to_set().contains(x),
{
    let at = a.drop_first();
    let i = choose|k: int| 0 <= k < at.len() && at[k] == x;
    assert(a[i + 1] == x);
    assert(a.to_set().contains(x));
    assert(b.to_set().contains(x));
    let j = choose|k: int| 0 <= k < b.len() && b[k] == x;
    if j == 0 {
        // Then x equals the shared head, contradicting strict sortedness of a.
        assert(lex_lt(a[0], a[i + 1]));
        lemma_lex_lt_irreflexive(x);
    } else {
        assert(b.drop_first()[j - 1] == x);
        assert(b.drop_first().to_set().contains(x));
    }
}

} // verus!
