//! Ordering utilities: three-way string comparison over character
//! sequences, and a stable insertion sort on sequences, specified as a
//! deterministic spec-level function so that sorting functions can
//! promise their exact result.

use vstd::prelude::*;

verus! {

/// Three-way lexicographic comparison of two character sequences by
/// code point: negative when `a` comes first, zero when they are
/// equal, positive when `b` comes first.
pub open spec fn str_cmp(a: Seq<char>, b: Seq<char>) -> int
    decreases a.len(),
{
    if a.len() == 0 && b.len() == 0 {
        0
    } else if a.len() == 0 {
        -1
    } else if b.len() == 0 {
        1
    } else if a[0] == b[0] {
        str_cmp(a.drop_first(), b.drop_first())
    } else if (a[0] as u32) < (b[0] as u32) {
        -1
    } else {
        1
    }
}

/// Two character sequences compare as equal exactly when they are the
/// same sequence.
pub proof fn lemma_str_cmp_eq(a: Seq<char>, b: Seq<char>)
    ensures
        (str_cmp(a, b) == 0) <==> (a == b),
    decreases a.len(),
{
    if a.len() == 0 && b.len() == 0 {
        assert(a =~= b);
    } else if a.len() == 0 || b.len() == 0 {
    } else if a[0] == b[0] {
        lemma_str_cmp_eq(a.drop_first(), b.drop_first());
        if str_cmp(a, b) == 0 {
            assert(a.drop_first() == b.drop_first());
            assert(a.len() == b.len());
            assert forall|i: int| 0 <= i < a.len() implies a[i] == b[i] by {
                if i > 0 {
                    assert(a[i] == a.drop_first()[i - 1]);
                    assert(b[i] == b.drop_first()[i - 1]);
                }
            }
            assert(a =~= b);
        } else {
            if a == b {
                assert(a.drop_first() =~= b.drop_first());
            }
        }
    } else {
        if a == b {
            assert(a[0] == b[0]);
        }
    }
}

/// Compare two strings lexicographically by code point.
pub fn str_cmp_exec(a: &str, b: &str) -> (r: i8)
    ensures
        r as int == str_cmp(a@, b@),
{
    let alen = a.unicode_len();
    let blen = b.unicode_len();
    let mut i: usize = 0;
    proof {
        assert(a@.skip(0) =~= a@);
        assert(b@.skip(0) =~= b@);
    }
    while i < alen && i < blen
        invariant
            i <= alen,
            i <= blen,
            alen == a@.len(),
            blen == b@.len(),
            str_cmp(a@, b@) == str_cmp(a@.skip(i as int), b@.skip(i as int)),
        decreases alen - i,
    {
        let ca = a.get_char(i);
        let cb = b.get_char(i);
        proof {
            assert(a@.skip(i as int)[0] == a@[i as int]);
            assert(b@.skip(i as int)[0] == b@[i as int]);
        }
        if ca != cb {
            if (ca as u32) < (cb as u32) {
                return -1;
            } else {
                return 1;
            }
        }
        proof {
            assert(a@.skip(i as int).drop_first() =~= a@.skip(i + 1));
            assert(b@.skip(i as int).drop_first() =~= b@.skip(i + 1));
        }
        i = i + 1;
    }
    if alen == blen {
        0
    } else if alen < blen {
        -1
    } else {
        1
    }
}

/// Stable insertion of `x` into `s`: `x` lands after every element
/// that the order `le` places at or before it, so equal elements keep
/// their arrival order.
pub open spec fn seq_ins<T>(s: Seq<T>, x: T, le: spec_fn(T, T) -> bool) -> Seq<T>
    decreases s.len(),
{
    if s.len() == 0 {
        seq![x]
    } else if le(s.last(), x) {
        s.push(x)
    } else {
        seq_ins(s.drop_last(), x, le).push(s.last())
    }
}

/// Stable insertion sort of `s` under the order `le`.
pub open spec fn seq_sort_by<T>(s: Seq<T>, le: spec_fn(T, T) -> bool) -> Seq<T>
    decreases s.len(),
{
    if s.len() == 0 {
        Seq::empty()
    } else {
        seq_ins(seq_sort_by(s.drop_last(), le), s.last(), le)
    }
}

/// Sorting a sequence of at most one element changes nothing.
pub proof fn lemma_seq_sort_by_short<T>(s: Seq<T>, le: spec_fn(T, T) -> bool)
    requires
        s.len() <= 1,
    ensures
        seq_sort_by(s, le) == s,
{
    if s.len() == 1 {
        assert(s.drop_last() =~= Seq::<T>::empty());
        assert(seq_sort_by(Seq::<T>::empty(), le) =~= Seq::<T>::empty());
        assert(seq_ins(Seq::<T>::empty(), s.last(), le) =~= s);
    } else {
        assert(s =~= Seq::<T>::empty());
    }
}

/// Inserting at the position found by scanning from the right is the
/// stable insertion.
pub proof fn lemma_seq_ins_at<T>(s: Seq<T>, x: T, pos: int, le: spec_fn(T, T) -> bool)
    requires
        0 <= pos <= s.len(),
        forall|k: int| pos <= k < s.len() ==> !le(#[trigger] s[k], x),
        pos > 0 ==> le(s[pos - 1], x),
    ensures
        seq_ins(s, x, le) == s.subrange(0, pos) + seq![x] + s.subrange(pos, s.len() as int),
    decreases s.len(),
{
    if s.len() == 0 {
        assert(seq_ins(s, x, le) =~= s.subrange(0, pos) + seq![x] + s.subrange(
            pos,
            s.len() as int,
        ));
    } else if le(s.last(), x) {
        assert(pos == s.len());
        assert(seq_ins(s, x, le) =~= s.subrange(0, pos) + seq![x] + s.subrange(
            pos,
            s.len() as int,
        ));
    } else {
        assert(pos < s.len());
        let sd = s.drop_last();
        assert(forall|k: int| pos <= k < sd.len() ==> !le(#[trigger] sd[k], x));
        lemma_seq_ins_at(sd, x, pos, le);
        assert(seq_ins(s, x, le) =~= s.subrange(0, pos) + seq![x] + s.subrange(
            pos,
            s.len() as int,
        ));
    }
}

/// Mapping a function over a stable insertion gives the stable
/// insertion of the mapped element, when the orders agree through the
/// map.
pub proof fn lemma_seq_ins_map<T, U>(
    s: Seq<T>,
    x: T,
    f: spec_fn(T) -> U,
    le_t: spec_fn(T, T) -> bool,
    le_u: spec_fn(U, U) -> bool,
)
    requires
        forall|a: T, b: T| #[trigger] le_t(a, b) == le_u(f(a), f(b)),
    ensures
        seq_ins(s, x, le_t).map_values(f) == seq_ins(s.map_values(f), f(x), le_u),
    decreases s.len(),
{
    let sm = s.map_values(f);
    if s.len() == 0 {
        assert(seq_ins(s, x, le_t).map_values(f) =~= seq_ins(sm, f(x), le_u));
    } else if le_t(s.last(), x) {
        assert(sm.last() == f(s.last()));
        assert(seq_ins(s, x, le_t).map_values(f) =~= sm.push(f(x)));
        assert(seq_ins(sm, f(x), le_u) =~= sm.push(f(x)));
    } else {
        assert(sm.last() == f(s.last()));
        lemma_seq_ins_map(s.drop_last(), x, f, le_t, le_u);
        assert(s.drop_last().map_values(f) =~= sm.drop_last());
        assert(seq_ins(s, x, le_t).map_values(f) =~= seq_ins(s.drop_last(), x, le_t).map_values(
            f,
        ).push(f(s.last())));
        assert(seq_ins(sm, f(x), le_u) =~= seq_ins(sm.drop_last(), f(x), le_u).push(sm.last()));
    }
}

/// Mapping a function over a stable sort gives the stable sort of the
/// mapped sequence, when the orders agree through the map.
pub proof fn lemma_seq_sort_by_map<T, U>(
    s: Seq<T>,
    f: spec_fn(T) -> U,
    le_t: spec_fn(T, T) -> bool,
    le_u: spec_fn(U, U) -> bool,
)
    requires
        forall|a: T, b: T| #[trigger] le_t(a, b) == le_u(f(a), f(b)),
    ensures
        seq_sort_by(s, le_t).map_values(f) == seq_sort_by(s.map_values(f), le_u),
    decreases s.len(),
{
    let sm = s.map_values(f);
    if s.len() == 0 {
        assert(seq_sort_by(s, le_t).map_values(f) =~= seq_sort_by(sm, le_u));
    } else {
        lemma_seq_sort_by_map(s.drop_last(), f, le_t, le_u);
        lemma_seq_ins_map(seq_sort_by(s.drop_last(), le_t), s.last(), f, le_t, le_u);
        assert(s.drop_last().map_values(f) =~= sm.drop_last());
        assert(sm.last() == f(s.last()));
        assert(seq_sort_by(s, le_t).map_values(f) == seq_ins(
            seq_sort_by(s.drop_last(), le_t),
            s.last(),
            le_t,
        ).map_values(f));
    }
}

} // verus!
