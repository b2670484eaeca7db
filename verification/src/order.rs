//! Ordered enumeration of sets of peer ids and of names.

use vstd::prelude::*;

use crate::table::{Key, KeySet};

verus! {

/// `q` lists its elements in strictly increasing order of `lt`.
pub open spec fn increasing<T>(q: Seq<T>, lt: spec_fn(T, T) -> bool) -> bool {
    forall|i: int, j: int| 0 <= i < j < q.len() ==> lt(#[trigger] q[i], #[trigger] q[j])
}

/// `lt` is irreflexive and transitive.
pub open spec fn strict<T>(lt: spec_fn(T, T) -> bool) -> bool {
    &&& forall|a: T| !#[trigger] lt(a, a)
    &&& forall|a: T, b: T, c: T| #[trigger] lt(a, b) && #[trigger] lt(b, c) ==> lt(a, c)
}

/// The elements of `s` in increasing order of `lt`.
pub open spec fn in_order<T>(s: Set<T>, lt: spec_fn(T, T) -> bool) -> Seq<T> {
    choose|q: Seq<T>| increasing(q, lt) && q.to_set() == s
}

/// Two increasing sequences with the same elements are the same sequence.
pub proof fn lemma_increasing_unique<T>(a: Seq<T>, b: Seq<T>, lt: spec_fn(T, T) -> bool)
    requires
        strict(lt),
        increasing(a, lt),
        increasing(b, lt),
        a.to_set() == b.to_set(),
    ensures
        a == b,
    decreases a.len(),
{
    if a.len() == 0 {
        if b.len() > 0 {
            assert(b.to_set().contains(b[0]));
            assert(a.to_set().contains(b[0]));
        }
        assert(a =~= b);
    } else {
        assert(a.to_set().contains(a[0]));
        assert(b.contains(a[0]));
        assert(b.to_set().contains(b[0]));
        assert(a.contains(b[0]));
        let i = choose|i: int| 0 <= i < b.len() && b[i] == a[0];
        let j = choose|j: int| 0 <= j < a.len() && a[j] == b[0];
        if i > 0 {
            assert(lt(b[0], a[0]));
            if j > 0 {
                assert(lt(a[0], b[0]));
                assert(lt(a[0], a[0]));
            }
        }
        assert(a[0] == b[0]);
        let ta = a.drop_first();
        let tb = b.drop_first();
        assert(ta.to_set() =~= tb.to_set()) by {
            assert forall|x: T| ta.to_set().contains(x) implies tb.to_set().contains(x) by {
                let p = choose|p: int| 0 <= p < ta.len() && ta[p] == x;
                assert(a[p + 1] == x);
                assert(a.to_set().contains(x));
                assert(b.contains(x));
                let r = choose|r: int| 0 <= r < b.len() && b[r] == x;
                if r == 0 {
                    assert(lt(a[0], a[p + 1]));
                }
                assert(tb[r - 1] == x);
            }
            assert forall|x: T| tb.to_set().contains(x) implies ta.to_set().contains(x) by {
                let p = choose|p: int| 0 <= p < tb.len() && tb[p] == x;
                assert(b[p + 1] == x);
                assert(b.to_set().contains(x));
                assert(a.contains(x));
                let r = choose|r: int| 0 <= r < a.len() && a[r] == x;
                if r == 0 {
                    assert(lt(b[0], b[p + 1]));
                }
                assert(ta[r - 1] == x);
            }
        }
        lemma_increasing_unique(ta, tb, lt);
        assert(a =~= seq![a[0]] + ta);
        assert(b =~= seq![b[0]] + tb);
    }
}

/// An increasing sequence is the ordered enumeration of its own elements.
pub proof fn lemma_in_order<T>(q: Seq<T>, lt: spec_fn(T, T) -> bool)
    requires
        strict(lt),
        increasing(q, lt),
    ensures
        in_order(q.to_set(), lt) == q,
{
    let p = in_order(q.to_set(), lt);
    assert(increasing(q, lt) && q.to_set() == q.to_set());
    lemma_increasing_unique(p, q, lt);
}

/// Inserting `x` at its place keeps a sequence increasing.
proof fn lemma_insert<T>(q: Seq<T>, at: int, x: T, lt: spec_fn(T, T) -> bool)
    requires
        strict(lt),
        increasing(q, lt),
        0 <= at <= q.len(),
        forall|i: int| 0 <= i < at ==> lt(#[trigger] q[i], x),
        forall|i: int| at <= i < q.len() ==> lt(x, #[trigger] q[i]),
    ensures
        increasing(q.insert(at, x), lt),
        q.insert(at, x).to_set() == q.to_set().insert(x),
{
    let r = q.insert(at, x);
    assert(r.to_set() =~= q.to_set().insert(x)) by {
        assert forall|y: T| r.to_set().contains(y) implies q.to_set().insert(x).contains(y) by {
            let i = choose|i: int| 0 <= i < r.len() && r[i] == y;
            if i < at {
                assert(q[i] == y);
            } else if i > at {
                assert(q[i - 1] == y);
            }
        }
        assert forall|y: T| q.to_set().insert(x).contains(y) implies r.to_set().contains(y) by {
            if y == x {
                assert(r[at] == x);
            } else {
                let i = choose|i: int| 0 <= i < q.len() && q[i] == y;
                assert(r[if i < at { i } else { i + 1 }] == y);
            }
        }
    }
}

/// The members of a set of numbers in increasing order.
pub open spec fn ascending(s: Set<u64>) -> Seq<u64> {
    in_order(s, |a: u64, b: u64| a < b)
}

/// A number that is not in an increasing sequence has a place in it.
proof fn lemma_place(q: Seq<u64>, x: u64) -> (at: int)
    requires
        increasing(q, |a: u64, b: u64| a < b),
        !q.contains(x),
    ensures
        0 <= at <= q.len(),
        forall|i: int| 0 <= i < at ==> #[trigger] q[i] < x,
        forall|i: int| at <= i < q.len() ==> x < #[trigger] q[i],
    decreases q.len(),
{
    let lt = |a: u64, b: u64| a < b;
    if q.len() == 0 || q.last() < x {
        assert forall|i: int| 0 <= i < q.len() implies #[trigger] q[i] < x by {
            if i < q.len() - 1 {
                assert(lt(q[i], q[q.len() - 1]));
            }
        }
        q.len() as int
    } else {
        let front = q.drop_last();
        assert(q[q.len() - 1] != x);
        assert forall|i: int| 0 <= i < front.len() implies #[trigger] front[i] != x by {
            assert(q[i] == front[i]);
        }
        let at = lemma_place(front, x);
        assert forall|i: int| 0 <= i < at implies #[trigger] q[i] < x by {
            assert(front[i] == q[i]);
        }
        assert forall|i: int| at <= i < q.len() implies x < #[trigger] q[i] by {
            if i < front.len() {
                assert(front[i] == q[i]);
            }
        }
        at
    }
}

/// A finite set of numbers has an enumeration in increasing order.
pub proof fn lemma_ascending(s: Set<u64>)
    requires
        s.finite(),
    ensures
        increasing(ascending(s), |a: u64, b: u64| a < b),
        ascending(s).to_set() == s,
        ascending(s).no_duplicates(),
    decreases s.len(),
{
    let lt = |a: u64, b: u64| a < b;
    if s.len() == 0 {
        let q = Seq::<u64>::empty();
        assert(q.to_set() =~= s);
        assert(increasing(q, lt) && q.to_set() == s);
    } else {
        let x = s.choose();
        let rest = s.remove(x);
        lemma_ascending(rest);
        let q = ascending(rest);
        assert(!q.contains(x)) by {
            if q.contains(x) {
                assert(q.to_set().contains(x));
            }
        }
        let at = lemma_place(q, x);
        lemma_insert(q, at, x, lt);
        assert(rest.insert(x) =~= s);
        assert(increasing(q.insert(at, x), lt) && q.insert(at, x).to_set() == s);
    }
    let r = ascending(s);
    assert forall|i: int, j: int| 0 <= i < r.len() && 0 <= j < r.len() && i != j implies r[i] != r[j] by {
        if i < j {
            assert(lt(r[i], r[j]));
        } else {
            assert(lt(r[j], r[i]));
        }
    }
}

/// Lists the members of `s` in increasing order.
pub fn ascending_items(s: &KeySet<u64>) -> (r: Vec<u64>)
    ensures
        r@ == ascending(s@),
        r@.to_set() == s@,
        forall|i: int, j: int| 0 <= i < j < r@.len() ==> r@[i] < r@[j],
{
    let ghost lt = |a: u64, b: u64| a < b;
    let items = s.items();
    let mut out: Vec<u64> = Vec::new();
    let mut i: usize = 0;
    while i < items.len()
        invariant
            i <= items@.len(),
            lt == (|a: u64, b: u64| a < b),
            increasing(out@, lt),
            out@.to_set() == items@.take(i as int).to_set(),
        decreases items@.len() - i,
    {
        let x: u64 = items[i];
        let mut at: usize = 0;
        while at < out.len() && out[at] < x
            invariant
                at <= out@.len(),
                forall|j: int| 0 <= j < at ==> #[trigger] out@[j] < x,
            decreases out@.len() - at,
        {
            at = at + 1;
        }
        proof {
            let next = items@.take(i + 1);
            assert(next =~= items@.take(i as int).push(x));
            assert(next.to_set() =~= items@.take(i as int).to_set().insert(x)) by {
                assert forall|y: u64| next.to_set().contains(y) implies items@.take(
                    i as int,
                ).to_set().insert(x).contains(y) by {
                    let p = choose|p: int| 0 <= p < next.len() && next[p] == y;
                    if p < i {
                        assert(items@.take(i as int)[p] == y);
                    }
                }
                assert forall|y: u64|
                    items@.take(i as int).to_set().insert(x).contains(y) implies next.to_set().contains(
                y) by {
                    if y == x {
                        assert(next[i as int] == y);
                    } else {
                        let p = choose|p: int| 0 <= p < i && items@.take(i as int)[p] == y;
                        assert(next[p] == y);
                    }
                }
            }
            if at < out@.len() && out@[at as int] == x {
                assert(out@.to_set().contains(x));
                assert(out@.to_set().insert(x) =~= out@.to_set());
            } else {
                lemma_insert(out@, at as int, x, lt);
            }
        }
        if at >= out.len() || out[at] != x {
            out.insert(at, x);
        }
        i = i + 1;
    }
    proof {
        assert(items@.take(items@.len() as int) =~= items@);
        assert(out@.to_set() =~= s@) by {
            assert forall|y: u64| s@.contains(y) implies out@.to_set().contains(y) by {
                let p = choose|p: int| 0 <= p < items@.len() && (#[trigger] items@[p])@ == y;
                assert(items@[p] == y);
                assert(items@.contains(y));
            }
            assert forall|y: u64| out@.to_set().contains(y) implies s@.contains(y) by {
                assert(items@.to_set().contains(y));
                assert(items@.contains(y));
                let p = choose|p: int| 0 <= p < items@.len() && items@[p] == y;
                assert(items@[p] == y);
            }
        }
        lemma_in_order(out@, lt);
    }
    out
}

/// Lexicographic order of byte strings.
pub open spec fn bytes_lt(a: Seq<u8>, b: Seq<u8>) -> bool
    decreases a.len(),
{
    if b.len() == 0 {
        false
    } else if a.len() == 0 {
        true
    } else if a[0] != b[0] {
        a[0] < b[0]
    } else {
        bytes_lt(a.drop_first(), b.drop_first())
    }
}

proof fn lemma_bytes_irreflexive(a: Seq<u8>)
    ensures
        !bytes_lt(a, a),
    decreases a.len(),
{
    if a.len() > 0 {
        lemma_bytes_irreflexive(a.drop_first());
    }
}

proof fn lemma_bytes_transitive(a: Seq<u8>, b: Seq<u8>, c: Seq<u8>)
    requires
        bytes_lt(a, b),
        bytes_lt(b, c),
    ensures
        bytes_lt(a, c),
    decreases a.len(),
{
    if a.len() > 0 && a[0] == b[0] && b[0] == c[0] {
        lemma_bytes_transitive(a.drop_first(), b.drop_first(), c.drop_first());
    }
}

proof fn lemma_bytes_total(a: Seq<u8>, b: Seq<u8>)
    ensures
        bytes_lt(a, b) || bytes_lt(b, a) || a == b,
    decreases a.len(),
{
    if a.len() == 0 || b.len() == 0 {
        if a.len() == b.len() {
            assert(a =~= b);
        }
    } else if a[0] == b[0] {
        lemma_bytes_total(a.drop_first(), b.drop_first());
        if a.drop_first() == b.drop_first() {
            assert(a =~= seq![a[0]] + a.drop_first());
            assert(b =~= seq![b[0]] + b.drop_first());
        }
    }
}

/// Names are ordered as their UTF-8 bytes are.
pub open spec fn name_lt(a: Seq<char>, b: Seq<char>) -> bool {
    bytes_lt(vstd::utf8::encode_utf8(a), vstd::utf8::encode_utf8(b))
}

/// Names in increasing order.
pub open spec fn alphabetical(s: Set<Seq<char>>) -> Seq<Seq<char>> {
    in_order(s, |a: Seq<char>, b: Seq<char>| name_lt(a, b))
}

proof fn lemma_name_order()
    ensures
        strict(|a: Seq<char>, b: Seq<char>| name_lt(a, b)),
{
    let lt = |a: Seq<char>, b: Seq<char>| name_lt(a, b);
    assert forall|a: Seq<char>| !#[trigger] lt(a, a) by {
        lemma_bytes_irreflexive(vstd::utf8::encode_utf8(a));
    }
    assert forall|a: Seq<char>, b: Seq<char>, c: Seq<char>| #[trigger] lt(a, b) && #[trigger] lt(b, c) implies lt(
        a,
        c,
    ) by {
        lemma_bytes_transitive(
            vstd::utf8::encode_utf8(a),
            vstd::utf8::encode_utf8(b),
            vstd::utf8::encode_utf8(c),
        );
    }
}

fn bytes_less(a: &[u8], b: &[u8]) -> (r: bool)
    ensures
        r == bytes_lt(a@, b@),
{
    let mut i: usize = 0;
    proof {
        assert(a@.skip(0) =~= a@);
        assert(b@.skip(0) =~= b@);
    }
    while i < a.len() && i < b.len() && a[i] == b[i]
        invariant
            i <= a@.len(),
            i <= b@.len(),
            bytes_lt(a@, b@) == bytes_lt(a@.skip(i as int), b@.skip(i as int)),
        decreases a@.len() - i,
    {
        proof {
            assert(a@.skip(i as int).drop_first() =~= a@.skip(i + 1));
            assert(b@.skip(i as int).drop_first() =~= b@.skip(i + 1));
        }
        i = i + 1;
    }
    if i >= b.len() {
        false
    } else if i >= a.len() {
        true
    } else {
        a[i] < b[i]
    }
}

/// Whether `a` comes before `b`.
pub fn name_less(a: &String, b: &String) -> (r: bool)
    ensures
        r == name_lt(a@, b@),
{
    bytes_less(a.as_str().as_bytes(), b.as_str().as_bytes())
}

/// What a list of strings spells.
pub open spec fn spelled(v: Seq<String>) -> Seq<Seq<char>> {
    v.map_values(|s: String| s@)
}

/// Something that is before or after each of an increasing sequence has a place
/// in it.
proof fn lemma_find<T>(q: Seq<T>, x: T, lt: spec_fn(T, T) -> bool) -> (at: int)
    requires
        strict(lt),
        increasing(q, lt),
        forall|i: int| 0 <= i < q.len() ==> lt(#[trigger] q[i], x) || lt(x, q[i]),
    ensures
        0 <= at <= q.len(),
        forall|i: int| 0 <= i < at ==> lt(#[trigger] q[i], x),
        forall|i: int| at <= i < q.len() ==> lt(x, #[trigger] q[i]),
    decreases q.len(),
{
    if q.len() == 0 {
        0
    } else {
        let head = q.drop_last();
        let n = q.len() - 1;
        assert forall|i: int| 0 <= i < head.len() implies lt(#[trigger] head[i], x) || lt(x, head[i]) by {
            assert(head[i] == q[i]);
        }
        if lt(q[n], x) {
            assert forall|i: int| 0 <= i < q.len() implies lt(#[trigger] q[i], x) by {
                if i < n {
                    assert(lt(q[i], q[n]));
                }
            }
            q.len() as int
        } else {
            let at = lemma_find(head, x, lt);
            assert forall|i: int| 0 <= i < at implies lt(#[trigger] q[i], x) by {
                assert(lt(head[i], x));
            }
            assert forall|i: int| at <= i < q.len() implies lt(x, #[trigger] q[i]) by {
                if i < n {
                    assert(lt(x, head[i]));
                }
            }
            at
        }
    }
}

/// Names are put in order: each of them once.
pub(crate) proof fn lemma_alphabetical(s: Set<Seq<char>>)
    requires
        s.finite(),
    ensures
        increasing(alphabetical(s), |a: Seq<char>, b: Seq<char>| name_lt(a, b)),
        alphabetical(s).to_set() == s,
        alphabetical(s).no_duplicates(),
    decreases s.len(),
{
    let lt = |a: Seq<char>, b: Seq<char>| name_lt(a, b);
    lemma_name_order();
    if s.len() == 0 {
        let q = Seq::<Seq<char>>::empty();
        assert(q.to_set() =~= s);
        lemma_in_order(q, lt);
    } else {
        let x = s.choose();
        let rest = s.remove(x);
        lemma_alphabetical(rest);
        let q = alphabetical(rest);
        assert forall|i: int| 0 <= i < q.len() implies lt(#[trigger] q[i], x) || lt(x, q[i]) by {
            assert(q.to_set().contains(q[i]));
            lemma_bytes_total(vstd::utf8::encode_utf8(q[i]), vstd::utf8::encode_utf8(x));
            vstd::utf8::encode_utf8_decode_utf8(q[i]);
            vstd::utf8::encode_utf8_decode_utf8(x);
        }
        let at = lemma_find(q, x, lt);
        lemma_insert(q, at, x, lt);
        assert(rest.insert(x) =~= s);
        lemma_in_order(q.insert(at, x), lt);
    }
    let all = alphabetical(s);
    assert forall|i: int, j: int| 0 <= i < all.len() && 0 <= j < all.len() && i != j implies all[i] != all[j] by {
        if i < j {
            assert(lt(all[i], all[j]));
        } else {
            assert(lt(all[j], all[i]));
        }
    }
}

/// One name is in order.
pub(crate) proof fn lemma_alphabetical_one(a: Seq<char>)
    ensures
        alphabetical(set![a]) == seq![a],
{
    lemma_name_order();
    let q = seq![a];
    assert(q.to_set() =~= set![a]) by {
        assert(q[0] == a);
    }
    lemma_in_order(q, |a: Seq<char>, b: Seq<char>| name_lt(a, b));
}

/// Sorts names, dropping repetitions.
pub fn sort_names(names: &Vec<String>) -> (r: Vec<String>)
    ensures
        spelled(r@) == alphabetical(spelled(names@).to_set()),
        spelled(r@).to_set() == spelled(names@).to_set(),
{
    let ghost lt = |a: Seq<char>, b: Seq<char>| name_lt(a, b);
    let mut out: Vec<String> = Vec::new();
    let mut i: usize = 0;
    proof {
        lemma_name_order();
        assert(spelled(out@).to_set() =~= spelled(names@.take(0)).to_set());
    }
    while i < names.len()
        invariant
            i <= names@.len(),
            lt == (|a: Seq<char>, b: Seq<char>| name_lt(a, b)),
            strict(lt),
            increasing(spelled(out@), lt),
            spelled(out@).to_set() == spelled(names@.take(i as int)).to_set(),
        decreases names@.len() - i,
    {
        let x: &String = &names[i];
        let mut at: usize = 0;
        while at < out.len() && name_less(&out[at], x)
            invariant
                at <= out@.len(),
                forall|j: int| 0 <= j < at ==> name_lt((#[trigger] out@[j])@, x@),
            decreases out@.len() - at,
        {
            at = at + 1;
        }
        let known: bool = at < out.len() && out[at] == *x;
        let ghost before = spelled(out@);
        if !known {
            out.insert(at, x.clone());
        }
        proof {
            let was = spelled(names@.take(i as int));
            let next = spelled(names@.take(i + 1));
            assert(next =~= was.push(x@));
            assert(next.to_set() =~= was.to_set().insert(x@)) by {
                assert forall|y: Seq<char>| next.to_set().contains(y) implies was.to_set().insert(
                    x@,
                ).contains(y) by {
                    let p = choose|p: int| 0 <= p < next.len() && next[p] == y;
                    if p < i {
                        assert(was[p] == y);
                    }
                }
                assert forall|y: Seq<char>| was.to_set().insert(x@).contains(y) implies next.to_set().contains(
                y) by {
                    if y == x@ {
                        assert(next[i as int] == y);
                    } else {
                        let p = choose|p: int| 0 <= p < was.len() && was[p] == y;
                        assert(next[p] == y);
                    }
                }
            }
            if known {
                assert(before[at as int] == x@);
                assert(before.to_set().insert(x@) =~= before.to_set());
            } else {
                assert(spelled(out@) =~= before.insert(at as int, x@));
                assert forall|j: int| at <= j < before.len() implies lt(x@, #[trigger] before[j]) by {
                    lemma_bytes_total(
                        vstd::utf8::encode_utf8(before[at as int]),
                        vstd::utf8::encode_utf8(x@),
                    );
                    if vstd::utf8::encode_utf8(before[at as int]) == vstd::utf8::encode_utf8(x@) {
                        vstd::utf8::encode_utf8_decode_utf8(before[at as int]);
                        vstd::utf8::encode_utf8_decode_utf8(x@);
                    }
                    assert(lt(x@, before[at as int]));
                    if j > at {
                        assert(lt(before[at as int], before[j]));
                    }
                }
                assert forall|j: int| 0 <= j < at implies lt(#[trigger] before[j], x@) by {
                }
                lemma_insert(before, at as int, x@, lt);
            }
        }
        i = i + 1;
    }
    proof {
        assert(names@.take(names@.len() as int) =~= names@);
        lemma_in_order(spelled(out@), lt);
    }
    out
}

} // verus!
