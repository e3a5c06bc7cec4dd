//! Unsigned lexicographic order on byte sequences: the order of the key
//! directory and of range scans, together with byte-prefix reasoning and the
//! strict upper bound of a prefix scan.

use vstd::prelude::*;

verus! {

/// Strict lexicographic order: `a` comes before `b` when at the first
/// differing position `a` holds the smaller byte, or `a` is a proper prefix
/// of `b`.
pub open spec fn lex_lt(a: Seq<u8>, b: Seq<u8>) -> bool
    decreases a.len(),
{
    if b.len() == 0 {
        false
    } else if a.len() == 0 {
        true
    } else if a[0] < b[0] {
        true
    } else if a[0] > b[0] {
        false
    } else {
        lex_lt(a.drop_first(), b.drop_first())
    }
}

pub proof fn lemma_lex_lt_irrefl(a: Seq<u8>)
    ensures
        !lex_lt(a, a),
    decreases a.len(),
{
    if a.len() > 0 {
        lemma_lex_lt_irrefl(a.drop_first());
    }
}

/// Any two byte sequences are ordered or equal.
pub proof fn lemma_lex_lt_total(a: Seq<u8>, b: Seq<u8>)
    ensures
        lex_lt(a, b) || lex_lt(b, a) || a == b,
    decreases a.len(),
{
    if a.len() == 0 && b.len() == 0 {
        assert(a =~= b);
    } else if a.len() > 0 && b.len() > 0 && a[0] == b[0] {
        lemma_lex_lt_total(a.drop_first(), b.drop_first());
        if !lex_lt(a, b) && !lex_lt(b, a) {
            assert(a.drop_first() =~= b.drop_first());
            assert(a =~= b) by {
                assert(forall|i: int|
                    1 <= i < a.len() ==> a[i] == a.drop_first()[i - 1] && b[i] == b.drop_first()[i
                        - 1]);
            }
        }
    }
}

pub proof fn lemma_lex_lt_asym(a: Seq<u8>, b: Seq<u8>)
    requires
        lex_lt(a, b),
    ensures
        !lex_lt(b, a),
    decreases a.len(),
{
    if a.len() > 0 && b.len() > 0 && a[0] == b[0] {
        lemma_lex_lt_asym(a.drop_first(), b.drop_first());
    }
}

pub proof fn lemma_lex_lt_trans(a: Seq<u8>, b: Seq<u8>, c: Seq<u8>)
    requires
        lex_lt(a, b),
        lex_lt(b, c),
    ensures
        lex_lt(a, c),
    decreases a.len(),
{
    if a.len() > 0 && b.len() > 0 && c.len() > 0 && a[0] == b[0] && b[0] == c[0] {
        lemma_lex_lt_trans(a.drop_first(), b.drop_first(), c.drop_first());
    }
}

/// Dropping an equal front byte from both sides keeps the order.
proof fn lemma_lex_lt_step(a: Seq<u8>, b: Seq<u8>)
    requires
        a.len() > 0,
        b.len() > 0,
        a[0] == b[0],
    ensures
        lex_lt(a, b) == lex_lt(a.drop_first(), b.drop_first()),
{
}

/// Dropping an equal front part from both sides keeps the order.
pub proof fn lemma_lex_lt_skip(a: Seq<u8>, b: Seq<u8>, i: int)
    requires
        0 <= i <= a.len(),
        i <= b.len(),
        forall|j: int| 0 <= j < i ==> a[j] == b[j],
    ensures
        lex_lt(a, b) == lex_lt(a.skip(i), b.skip(i)),
    decreases i,
{
    if i > 0 {
        lemma_lex_lt_step(a, b);
        assert(a.drop_first().skip(i - 1) =~= a.skip(i));
        assert(b.drop_first().skip(i - 1) =~= b.skip(i));
        lemma_lex_lt_skip(a.drop_first(), b.drop_first(), i - 1);
    } else {
        assert(a.skip(0) =~= a);
        assert(b.skip(0) =~= b);
    }
}

/// Whether `a` comes strictly before `b` in unsigned lexicographic order.
pub fn bytes_lt(a: &Vec<u8>, b: &Vec<u8>) -> (r: bool)
    ensures
        r == lex_lt(a@, b@),
{
    let mut i: usize = 0;
    loop
        invariant
            i <= a.len(),
            i <= b.len(),
            forall|j: int| 0 <= j < i ==> a@[j] == b@[j],
        decreases a.len() - i,
    {
        proof {
            lemma_lex_lt_skip(a@, b@, i as int);
        }
        if i == b.len() {
            return false;
        }
        if i == a.len() {
            return true;
        }
        if a[i] < b[i] {
            return true;
        }
        if a[i] > b[i] {
            return false;
        }
        i = i + 1;
    }
}

/// Whether the two byte strings hold the same bytes.
pub fn bytes_eq(a: &Vec<u8>, b: &Vec<u8>) -> (r: bool)
    ensures
        r == (a@ == b@),
{
    if a.len() != b.len() {
        return false;
    }
    let mut i: usize = 0;
    while i < a.len()
        invariant
            i <= a.len(),
            a.len() == b.len(),
            forall|j: int| 0 <= j < i ==> a@[j] == b@[j],
        decreases a.len() - i,
    {
        if a[i] != b[i] {
            return false;
        }
        i = i + 1;
    }
    proof {
        assert(a@ =~= b@);
    }
    true
}

/// A sequence of keys that strictly ascends in lexicographic order.
pub open spec fn strictly_sorted_keys(s: Seq<Seq<u8>>) -> bool {
    forall|i: int, j: int| 0 <= i < j < s.len() ==> lex_lt(s[i], s[j])
}

/// Two strictly ascending key sequences that hold the same keys are the same
/// sequence: a set of keys has exactly one sorted arrangement.
pub proof fn lemma_sorted_keys_unique(a: Seq<Seq<u8>>, b: Seq<Seq<u8>>)
    requires
        strictly_sorted_keys(a),
        strictly_sorted_keys(b),
        forall|k: Seq<u8>| a.contains(k) <==> b.contains(k),
    ensures
        a == b,
    decreases a.len(),
{
    if a.len() == 0 {
        if b.len() > 0 {
            assert(b.contains(b.last()));
            assert(a.contains(b.last()));
        }
        assert(a =~= b);
    } else {
        assert(a.contains(a.last()));
        assert(b.contains(a.last()));
        assert(b.len() > 0);
        assert(a.last() == b.last()) by {
            let j = choose|j: int| 0 <= j < b.len() && b[j] == a.last();
            assert(b.contains(b.last()));
            assert(a.contains(b.last()));
            let i = choose|i: int| 0 <= i < a.len() && a[i] == b.last();
            if a.last() != b.last() {
                assert(j < b.len() - 1);
                assert(lex_lt(b[j], b.last()));
                assert(i < a.len() - 1);
                assert(lex_lt(a[i], a.last()));
                lemma_lex_lt_asym(a.last(), b.last());
            }
        }
        assert forall|k: Seq<u8>| a.drop_last().contains(k) <==> b.drop_last().contains(k) by {
            if a.drop_last().contains(k) {
                let i = choose|i: int| 0 <= i < a.len() - 1 && a.drop_last()[i] == k;
                assert(a[i] == k);
                assert(lex_lt(k, a.last()));
                lemma_lex_lt_irrefl(k);
                assert(a.contains(k));
                let j = choose|j: int| 0 <= j < b.len() && b[j] == k;
                assert(j < b.len() - 1);
                assert(b.drop_last()[j] == k);
                assert(b.drop_last().contains(k));
            }
            if b.drop_last().contains(k) {
                let j = choose|j: int| 0 <= j < b.len() - 1 && b.drop_last()[j] == k;
                assert(b[j] == k);
                assert(lex_lt(k, b.last()));
                lemma_lex_lt_irrefl(k);
                assert(b.contains(k));
                let i = choose|i: int| 0 <= i < a.len() && a[i] == k;
                assert(i < a.len() - 1);
                assert(a.drop_last()[i] == k);
                assert(a.drop_last().contains(k));
            }
        }
        lemma_sorted_keys_unique(a.drop_last(), b.drop_last());
        assert(b.len() == a.len());
        assert(forall|i: int|
            0 <= i < a.len() - 1 ==> a[i] == a.drop_last()[i] && b[i] == b.drop_last()[i]);
        assert(a =~= b);
    }
}

/// `p` is a prefix of `k`.
pub open spec fn is_prefix(p: Seq<u8>, k: Seq<u8>) -> bool {
    p.len() <= k.len() && k.subrange(0, p.len() as int) == p
}

/// Every byte of `p` is `0xFF`, so no byte string greater than all keys with
/// prefix `p` yet not itself of that prefix exists.
pub open spec fn all_ff(p: Seq<u8>) -> bool
    decreases p.len(),
{
    if p.len() == 0 {
        true
    } else {
        p.last() == 255 && all_ff(p.drop_last())
    }
}

/// The least byte string above every key that has prefix `p`: trailing `0xFF`
/// bytes are stripped and the last remaining byte is incremented.
pub open spec fn prefix_succ(p: Seq<u8>) -> Seq<u8>
    recommends
        !all_ff(p),
    decreases p.len(),
{
    if p.len() == 0 {
        Seq::empty()
    } else if p.last() == 255 {
        prefix_succ(p.drop_last())
    } else {
        p.drop_last().push((p.last() + 1) as u8)
    }
}

/// Index of the last byte of `p` that is not `0xFF`, or `-1` when all are.
pub open spec fn last_non_ff(p: Seq<u8>) -> int
    decreases p.len(),
{
    if p.len() == 0 {
        -1
    } else if p.last() != 255 {
        p.len() - 1
    } else {
        last_non_ff(p.drop_last())
    }
}

proof fn lemma_all_ff_index(p: Seq<u8>)
    requires
        all_ff(p),
    ensures
        forall|i: int| 0 <= i < p.len() ==> p[i] == 255,
    decreases p.len(),
{
    if p.len() > 0 {
        lemma_all_ff_index(p.drop_last());
        assert(forall|i: int| 0 <= i < p.len() - 1 ==> p[i] == p.drop_last()[i]);
    }
}

/// Shape of the prefix successor: everything before the last non-`0xFF` byte
/// is kept, that byte is incremented, the `0xFF` tail is dropped.
proof fn lemma_succ_structure(p: Seq<u8>)
    requires
        !all_ff(p),
    ensures
        0 <= last_non_ff(p) < p.len(),
        p[last_non_ff(p)] != 255,
        forall|i: int| last_non_ff(p) < i < p.len() ==> p[i] == 255,
        prefix_succ(p) == p.subrange(0, last_non_ff(p)).push((p[last_non_ff(p)] + 1) as u8),
    decreases p.len(),
{
    let j = last_non_ff(p);
    if p.last() != 255 {
        assert(p.subrange(0, j) =~= p.drop_last());
    } else {
        lemma_succ_structure(p.drop_last());
        assert(forall|i: int| 0 <= i < p.len() - 1 ==> p[i] == p.drop_last()[i]);
        assert(p.subrange(0, j) =~= p.drop_last().subrange(0, j));
    }
}

/// A key is at least `p` exactly when `p` is a prefix of it or it differs
/// upward somewhere inside the first `p.len()` bytes.
proof fn lemma_ge_iff(p: Seq<u8>, k: Seq<u8>)
    ensures
        !lex_lt(k, p) <==> (is_prefix(p, k) || exists|i: int|
            0 <= i < p.len() && i < k.len() && k[i] > p[i] && k.subrange(0, i) =~= p.subrange(
                0,
                i,
            )),
    decreases p.len(),
{
    if p.len() == 0 {
        assert(is_prefix(p, k)) by {
            assert(k.subrange(0, 0) =~= p);
        }
    } else if k.len() == 0 {
        assert(lex_lt(k, p));
        assert(!is_prefix(p, k));
    } else if k[0] > p[0] {
        assert(!lex_lt(k, p));
        let i: int = 0;
        assert(0 <= i < p.len() && i < k.len() && k[i] > p[i] && k.subrange(0, i) =~= p.subrange(
            0,
            i,
        ));
    } else if k[0] < p[0] {
        assert(lex_lt(k, p));
        assert(!is_prefix(p, k)) by {
            if is_prefix(p, k) {
                assert(k.subrange(0, p.len() as int)[0] == k[0]);
            }
        }
        assert forall|i: int|
            0 <= i < p.len() && i < k.len() && k[i] > p[i] implies !(k.subrange(0, i)
            =~= p.subrange(0, i)) by {
            if k.subrange(0, i) =~= p.subrange(0, i) {
                if i > 0 {
                    assert(k.subrange(0, i)[0] == k[0]);
                    assert(p.subrange(0, i)[0] == p[0]);
                }
            }
        }
    } else {
        // k[0] == p[0]
        lemma_ge_iff(p.drop_first(), k.drop_first());
        assert(lex_lt(k, p) == lex_lt(k.drop_first(), p.drop_first()));
        let pt = p.drop_first();
        let kt = k.drop_first();
        assert(is_prefix(p, k) == is_prefix(pt, kt)) by {
            if is_prefix(pt, kt) && p.len() <= k.len() {
                assert(k.subrange(0, p.len() as int) =~= p) by {
                    assert(forall|j: int|
                        1 <= j < p.len() ==> k.subrange(0, p.len() as int)[j] == kt[j - 1]
                            && p[j] == pt[j - 1]);
                    assert(forall|j: int|
                        0 <= j < pt.len() ==> kt.subrange(0, pt.len() as int)[j] == kt[j]);
                }
            }
            if is_prefix(p, k) {
                assert(kt.subrange(0, pt.len() as int) =~= pt) by {
                    assert(forall|j: int|
                        0 <= j < pt.len() ==> kt.subrange(0, pt.len() as int)[j] == k[j + 1]
                            && pt[j] == p[j + 1]);
                    assert(forall|j: int|
                        0 <= j < p.len() ==> k.subrange(0, p.len() as int)[j] == k[j]);
                }
            }
        }
        if exists|i: int|
            0 <= i < pt.len() && i < kt.len() && kt[i] > pt[i] && kt.subrange(0, i) =~= pt.subrange(
                0,
                i,
            ) {
            let i = choose|i: int|
                0 <= i < pt.len() && i < kt.len() && kt[i] > pt[i] && kt.subrange(0, i)
                    =~= pt.subrange(0, i);
            assert(k.subrange(0, i + 1) =~= p.subrange(0, i + 1)) by {
                assert(forall|j: int|
                    1 <= j < i + 1 ==> #[trigger] k.subrange(0, i + 1)[j] == kt[j - 1]
                        && p.subrange(0, i + 1)[j] == pt[j - 1]);
                assert(forall|j: int| 0 <= j < i ==> kt.subrange(0, i)[j] == kt[j]);
                assert(forall|j: int| 0 <= j < i ==> pt.subrange(0, i)[j] == pt[j]);
            }
            assert(0 <= i + 1 < p.len() && i + 1 < k.len() && k[i + 1] > p[i + 1]);
        }
        if exists|i: int|
            0 <= i < p.len() && i < k.len() && k[i] > p[i] && k.subrange(0, i) =~= p.subrange(
                0,
                i,
            ) {
            let i = choose|i: int|
                0 <= i < p.len() && i < k.len() && k[i] > p[i] && k.subrange(0, i) =~= p.subrange(
                    0,
                    i,
                );
            assert(i != 0);
            assert(kt.subrange(0, i - 1) =~= pt.subrange(0, i - 1)) by {
                assert(forall|j: int|
                    0 <= j < i - 1 ==> #[trigger] kt.subrange(0, i - 1)[j] == k[j + 1]
                        && pt.subrange(0, i - 1)[j] == p[j + 1]);
                assert(forall|j: int|
                    0 <= j < i ==> k.subrange(0, i)[j] == k[j] && p.subrange(0, i)[j] == p[j]);
            }
            assert(0 <= i - 1 < pt.len() && i - 1 < kt.len() && kt[i - 1] > pt[i - 1]);
        }
    }
}

/// When every byte of the prefix is `0xFF`, the keys with that prefix are
/// exactly those at or above it: no strict upper bound exists.
pub proof fn lemma_prefix_all_ff(p: Seq<u8>, k: Seq<u8>)
    requires
        all_ff(p),
    ensures
        is_prefix(p, k) <==> !lex_lt(k, p),
{
    lemma_ge_iff(p, k);
    lemma_all_ff_index(p);
}

/// The keys with prefix `p` are exactly those in `[p, prefix_succ(p))`.
pub proof fn lemma_prefix_range(p: Seq<u8>, k: Seq<u8>)
    requires
        !all_ff(p),
    ensures
        is_prefix(p, k) <==> (!lex_lt(k, p) && lex_lt(k, prefix_succ(p))),
{
    lemma_succ_structure(p);
    let j = last_non_ff(p);
    let s = prefix_succ(p);
    lemma_ge_iff(p, k);
    lemma_ge_iff(s, k);
    assert(s.len() == j + 1);
    assert(forall|i: int| 0 <= i < j ==> s[i] == p[i]);
    assert(s[j] == p[j] + 1);
    if is_prefix(p, k) {
        // k agrees with p on [0, p.len()), in particular on [0, j].
        assert(forall|i: int| 0 <= i < p.len() ==> k[i] == #[trigger] (k.subrange(
            0,
            p.len() as int,
        ))[i]);
        assert(forall|i: int| 0 <= i < p.len() ==> k[i] == p[i]);
        // Not at or above the successor: it differs downward at j.
        assert(!is_prefix(s, k)) by {
            if is_prefix(s, k) {
                assert(k.subrange(0, s.len() as int)[j] == k[j]);
            }
        }
        assert forall|i: int|
            0 <= i < s.len() && i < k.len() && k[i] > s[i] implies !(k.subrange(0, i)
            =~= s.subrange(0, i)) by {
            assert(k[i] == p[i]);
        }
        assert(lex_lt(k, s));
    }
    if !lex_lt(k, p) && lex_lt(k, s) && !is_prefix(p, k) {
        // k is at or above p without having it as prefix: it differs upward
        // at some first position i, which forces k at or above the successor.
        let i = choose|i: int|
            0 <= i < p.len() && i < k.len() && k[i] > p[i] && k.subrange(0, i) =~= p.subrange(0, i);
        assert(forall|x: int| 0 <= x < i ==> k.subrange(0, i)[x] == k[x]);
        assert(forall|x: int| 0 <= x < i ==> p.subrange(0, i)[x] == p[x]);
        assert(forall|x: int| 0 <= x < i ==> k[x] == p[x]);
        if i < j {
            assert(k.subrange(0, i) =~= s.subrange(0, i));
            assert(!lex_lt(k, s));
        } else if i == j {
            if k[j] == s[j] {
                assert(is_prefix(s, k)) by {
                    assert(k.subrange(0, s.len() as int) =~= s);
                }
            } else {
                assert(k[j] > s[j]);
                assert(k.subrange(0, j) =~= s.subrange(0, j));
            }
            assert(!lex_lt(k, s));
        } else {
            assert(p[i] == 255);
            assert(false);
        }
    }
}

/// The least byte string strictly above every key with prefix `p`, when one
/// exists: `p` with its trailing `0xFF` bytes stripped and the last remaining
/// byte incremented.
pub fn prefix_successor(p: &Vec<u8>) -> (r: Option<Vec<u8>>)
    ensures
        match r {
            Some(s) => !all_ff(p@) && s@ == prefix_succ(p@),
            None => all_ff(p@),
        },
{
    let mut s: Vec<u8> = Vec::new();
    let mut i: usize = 0;
    while i < p.len()
        invariant
            i <= p.len(),
            s@ =~= p@.subrange(0, i as int),
        decreases p.len() - i,
    {
        let b = p[i];
        s.push(b);
        i = i + 1;
    }
    proof {
        assert(s@ =~= p@);
    }
    loop
        invariant
            all_ff(p@) == all_ff(s@),
            !all_ff(p@) ==> prefix_succ(p@) == prefix_succ(s@),
        decreases s@.len(),
    {
        let n = s.len();
        if n == 0 {
            return None;
        }
        let last = s[n - 1];
        if last == 255 {
            proof {
                assert(s@.drop_last() =~= s@.subrange(0, n - 1));
            }
            s.pop();
        } else {
            proof {
                assert(s@.drop_last() =~= s@.subrange(0, n - 1));
                assert(!all_ff(s@));
            }
            let bumped = last + 1;
            s.pop();
            s.push(bumped);
            proof {
                assert(s@ =~= prefix_succ(p@));
            }
            return Some(s);
        }
    }
}

} // verus!


