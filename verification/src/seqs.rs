//! Small building blocks for sequences: the first item that passes a
//! test, what a sequence holds once it has grown, the order of byte
//! strings.

use vstd::prelude::*;

verus! {

/// The first index of `s` whose item satisfies `f`, or the length of `s`
/// where none does.
pub open spec fn first_where<T>(s: Seq<T>, f: spec_fn(T) -> bool) -> nat
    decreases s.len(),
{
    if s.len() == 0 || f(s[0]) {
        0
    } else {
        1 + first_where(s.drop_first(), f)
    }
}

/// An index before which nothing satisfies `f`, and which is the length of
/// `s` or satisfies `f` itself, is the first such index.
pub proof fn lemma_first_where<T>(s: Seq<T>, f: spec_fn(T) -> bool, i: int)
    requires
        0 <= i <= s.len(),
        forall|j: int| 0 <= j < i ==> !f(#[trigger] s[j]),
        i == s.len() || f(s[i]),
    ensures
        first_where(s, f) == i,
    decreases s.len(),
{
    if i > 0 {
        assert(!f(s[0]));
        let t = s.drop_first();
        assert forall|j: int| 0 <= j < i - 1 implies !f(#[trigger] t[j]) by {
            assert(t[j] == s[j + 1]);
        }
        lemma_first_where(t, f, i - 1);
    }
}

/// What [`first_where`] finds: nothing before it satisfies `f`, and it is
/// the length of `s` or satisfies `f`.
pub proof fn lemma_first_where_is_first<T>(s: Seq<T>, f: spec_fn(T) -> bool)
    ensures
        first_where(s, f) <= s.len(),
        forall|j: int| 0 <= j < first_where(s, f) ==> !f(#[trigger] s[j]),
        first_where(s, f) < s.len() ==> f(s[first_where(s, f) as int]),
    decreases s.len(),
{
    if s.len() != 0 && !f(s[0]) {
        let t = s.drop_first();
        lemma_first_where_is_first(t, f);
        assert forall|j: int| 0 <= j < first_where(s, f) implies !f(#[trigger] s[j]) by {
            if j > 0 {
                assert(s[j] == t[j - 1]);
            }
        }
    }
}

/// Whether `a` comes before `b` when both are compared item by item, the
/// shorter first where one begins the other.
pub open spec fn seq_before(a: Seq<u8>, b: Seq<u8>) -> bool
    decreases a.len(),
{
    if b.len() == 0 {
        false
    } else if a.len() == 0 {
        true
    } else if a[0] != b[0] {
        a[0] < b[0]
    } else {
        seq_before(a.drop_first(), b.drop_first())
    }
}

/// Decides [`seq_before`].
pub fn bytes_before(a: &[u8], b: &[u8]) -> (r: bool)
    ensures
        r == seq_before(a@, b@),
{
    let mut i: usize = 0;
    assert(a@.skip(0) == a@);
    assert(b@.skip(0) == b@);
    while i < a.len() && i < b.len() && a[i] == b[i]
        invariant
            i <= a.len(),
            i <= b.len(),
            seq_before(a@, b@) == seq_before(a@.skip(i as int), b@.skip(i as int)),
        decreases a.len() - i,
    {
        proof {
            let x = a@.skip(i as int);
            let y = b@.skip(i as int);
            assert(x.drop_first() == a@.skip(i + 1));
            assert(y.drop_first() == b@.skip(i + 1));
        }
        i += 1;
    }
    proof {
        let x = a@.skip(i as int);
        let y = b@.skip(i as int);
        if i < a.len() && i < b.len() {
            assert(x[0] == a@[i as int]);
            assert(y[0] == b@[i as int]);
        }
    }
    if i >= b.len() {
        false
    } else if i >= a.len() {
        true
    } else {
        a[i] < b[i]
    }
}

/// What a sequence holds once `x` stands at its end: what it held, and `x`.
/// If it held nothing twice and did not hold `x`, it still holds nothing
/// twice.
pub proof fn lemma_push_contains<T>(s: Seq<T>, x: T)
    ensures
        forall|y: T| s.push(x).contains(y) <==> s.contains(y) || y == x,
        s.no_duplicates() && !s.contains(x) ==> s.push(x).no_duplicates(),
{
    let t = s.push(x);
    assert forall|y: T| t.contains(y) implies s.contains(y) || y == x by {
        let i = choose|i: int| 0 <= i < t.len() && t[i] == y;
        if i < s.len() {
            assert(s[i] == y);
        }
    }
    assert forall|y: T| s.contains(y) || y == x implies t.contains(y) by {
        if s.contains(y) {
            let i = choose|i: int| 0 <= i < s.len() && s[i] == y;
            assert(t[i] == y);
        } else {
            assert(t[s.len() as int] == y);
        }
    }
    if s.no_duplicates() && !s.contains(x) {
        assert forall|a: int, b: int| 0 <= a < t.len() && 0 <= b < t.len() && a != b implies t[a]
            != t[b] by {
            if a < s.len() {
                assert(s[a] == t[a]);
            }
            if b < s.len() {
                assert(s[b] == t[b]);
            }
        }
    }
}

/// The order of [`seq_before`] is transitive.
pub proof fn lemma_seq_before_transitive(a: Seq<u8>, b: Seq<u8>, c: Seq<u8>)
    requires
        seq_before(a, b),
        seq_before(b, c),
    ensures
        seq_before(a, c),
    decreases a.len(),
{
    if a.len() > 0 && a[0] == b[0] && b[0] == c[0] {
        lemma_seq_before_transitive(a.drop_first(), b.drop_first(), c.drop_first());
    }
}

/// Of two different sequences one comes before the other.
pub proof fn lemma_seq_before_total(a: Seq<u8>, b: Seq<u8>)
    requires
        a != b,
        !seq_before(a, b),
    ensures
        seq_before(b, a),
    decreases a.len(),
{
    if a.len() > 0 && b.len() > 0 && a[0] == b[0] {
        assert(a.drop_first() != b.drop_first()) by {
            if a.drop_first() == b.drop_first() {
                assert(a =~= seq![a[0]] + a.drop_first());
                assert(b =~= seq![b[0]] + b.drop_first());
            }
        }
        lemma_seq_before_total(a.drop_first(), b.drop_first());
    } else if a.len() == 0 && b.len() == 0 {
        assert(a =~= b);
    }
}

} // verus!
