//! Properties of the sibling order that hold for every input.
use vstd::prelude::*;
use crate::model::NormV;
use crate::order::{lemma_precedes_order, precedes};
use crate::codec::{key_of, lemma_round_trip};
use crate::docmap::has_prefix;
use crate::scan::ScanItem;
use crate::codec::has_no_slash;
use crate::service::{
    moved, moved_map, moved_value, rekey, rename_collides, renamed_entry, renamed_map,
    renamed_path, resorted_map, under,
};
use crate::service::{
    created_map, deleted_map, scan_step, scanned_map, goes_before, insert_sorted, leaf_of, parent_key_of, parent_ok,
    rank_in, sort_keys, valid_path, without,
};

verus! {

broadcast use vstd::seq::group_seq_axioms;

/// No key comes strictly before an earlier one.
pub open spec fn in_order(m: Map<Seq<char>, NormV>, ks: Seq<Seq<char>>) -> bool {
    forall|i: int, j: int|
        0 <= i < j < ks.len() ==> !precedes(rank_in(m, #[trigger] ks[j]), rank_in(m, #[trigger] ks[i]))
}

/// Every key is indexed.
pub open spec fn all_indexed(m: Map<Seq<char>, NormV>, ks: Seq<Seq<char>>) -> bool {
    forall|i: int| 0 <= i < ks.len() ==> m.contains_key(#[trigger] ks[i])
}

/// Distinct keys have distinct ranks.
pub open spec fn distinct_ranks(m: Map<Seq<char>, NormV>, ks: Seq<Seq<char>>) -> bool {
    forall|a: Seq<char>, b: Seq<char>|
        ks.contains(a) && ks.contains(b) && a != b ==> #[trigger] rank_in(m, a) != #[trigger] rank_in(m, b)
}

/// Inserting adds exactly the new key, and adds no duplicate.
pub proof fn lemma_insert_sorted_contents(m: Map<Seq<char>, NormV>, ks: Seq<Seq<char>>, k: Seq<char>)
    ensures
        insert_sorted(m, ks, k).len() == ks.len() + 1,
        forall|x: Seq<char>| #[trigger] insert_sorted(m, ks, k).contains(x) <==> (x == k || ks.contains(x)),
        ks.no_duplicates() && !ks.contains(k) ==> insert_sorted(m, ks, k).no_duplicates(),
    decreases ks.len(),
{
    let r = insert_sorted(m, ks, k);
    if ks.len() == 0 {
        assert forall|x: Seq<char>| #[trigger] r.contains(x) <==> (x == k || ks.contains(x)) by {
            if r.contains(x) {
                let t = choose|t: int| 0 <= t < r.len() && r[t] == x;
            }
            if x == k {
                assert(r[0] == k);
            }
        }
    } else if goes_before(m, k, ks[0]) {
        assert forall|x: Seq<char>| #[trigger] r.contains(x) <==> (x == k || ks.contains(x)) by {
            if r.contains(x) {
                let t = choose|t: int| 0 <= t < r.len() && r[t] == x;
                if t > 0 {
                    assert(ks[t - 1] == x);
                }
            }
            if x == k {
                assert(r[0] == k);
            }
            if ks.contains(x) {
                let t = choose|t: int| 0 <= t < ks.len() && ks[t] == x;
                assert(r[t + 1] == x);
            }
        }
    } else {
        let rest = ks.drop_first();
        lemma_insert_sorted_contents(m, rest, k);
        let ir = insert_sorted(m, rest, k);
        assert forall|x: Seq<char>| #[trigger] r.contains(x) <==> (x == k || ks.contains(x)) by {
            if r.contains(x) {
                let t = choose|t: int| 0 <= t < r.len() && r[t] == x;
                if t > 0 {
                    assert(ir[t - 1] == x);
                    assert(ir.contains(x));
                    if rest.contains(x) {
                        let u = choose|u: int| 0 <= u < rest.len() && rest[u] == x;
                        assert(ks[u + 1] == x);
                    }
                } else {
                    assert(ks[0] == x);
                }
            }
            if x == k {
                assert(ir.contains(k));
                let u = choose|u: int| 0 <= u < ir.len() && ir[u] == k;
                assert(r[u + 1] == k);
            }
            if ks.contains(x) {
                let t = choose|t: int| 0 <= t < ks.len() && ks[t] == x;
                if t == 0 {
                    assert(r[0] == x);
                } else {
                    assert(rest[t - 1] == x);
                    assert(ir.contains(x));
                    let u = choose|u: int| 0 <= u < ir.len() && ir[u] == x;
                    assert(r[u + 1] == x);
                }
            }
        }
        if ks.no_duplicates() && !ks.contains(k) {
            assert(rest.no_duplicates()) by {
                assert forall|a: int, b: int| 0 <= a < b < rest.len() implies rest[a] != rest[b] by {
                    assert(rest[a] == ks[a + 1] && rest[b] == ks[b + 1]);
                }
            }
            assert(!rest.contains(k)) by {
                if rest.contains(k) {
                    let u = choose|u: int| 0 <= u < rest.len() && rest[u] == k;
                    assert(ks[u + 1] == k);
                }
            }
            assert forall|a: int, b: int| 0 <= a < b < r.len() implies r[a] != r[b] by {
                if a == 0 {
                    assert(r[b] == ir[b - 1]);
                    assert(ir.contains(r[b]));
                    if r[b] == ks[0] {
                        if rest.contains(ks[0]) {
                            let u = choose|u: int| 0 <= u < rest.len() && rest[u] == ks[0];
                            assert(ks[u + 1] == ks[0]);
                        } else {
                            assert(ks.contains(k) || r[b] != k);
                            assert(ks[0] != k) by {
                                assert(ks.contains(ks[0]));
                            }
                        }
                    }
                } else {
                    assert(r[a] == ir[a - 1] && r[b] == ir[b - 1]);
                }
            }
        }
    }
}

/// Inserting into keys in order keeps them in order.
pub proof fn lemma_insert_sorted_in_order(m: Map<Seq<char>, NormV>, ks: Seq<Seq<char>>, k: Seq<char>)
    requires
        in_order(m, ks),
        all_indexed(m, ks),
    ensures
        in_order(m, insert_sorted(m, ks, k)),
    decreases ks.len(),
{
    let r = insert_sorted(m, ks, k);
    if ks.len() == 0 {
    } else if goes_before(m, k, ks[0]) {
        assert forall|i: int, j: int| 0 <= i < j < r.len() implies !precedes(
            rank_in(m, #[trigger] r[j]),
            rank_in(m, #[trigger] r[i]),
        ) by {
            lemma_precedes_order(rank_in(m, r[j]), rank_in(m, k), rank_in(m, ks[0]));
            if i == 0 {
                if j > 1 {
                    assert(!precedes(rank_in(m, ks[j - 1]), rank_in(m, ks[0])));
                }
            } else {
                assert(r[i] == ks[i - 1] && r[j] == ks[j - 1]);
            }
        }
    } else {
        let rest = ks.drop_first();
        assert(in_order(m, rest)) by {
            assert forall|i: int, j: int| 0 <= i < j < rest.len() implies !precedes(
                rank_in(m, #[trigger] rest[j]),
                rank_in(m, #[trigger] rest[i]),
            ) by {
                assert(rest[i] == ks[i + 1] && rest[j] == ks[j + 1]);
            }
        }
        assert(all_indexed(m, rest)) by {
            assert forall|i: int| 0 <= i < rest.len() implies m.contains_key(#[trigger] rest[i]) by {
                assert(rest[i] == ks[i + 1]);
            }
        }
        lemma_insert_sorted_in_order(m, rest, k);
        lemma_insert_sorted_contents(m, rest, k);
        let ir = insert_sorted(m, rest, k);
        assert forall|i: int, j: int| 0 <= i < j < r.len() implies !precedes(
            rank_in(m, #[trigger] r[j]),
            rank_in(m, #[trigger] r[i]),
        ) by {
            if i == 0 {
                let x = r[j];
                assert(x == ir[j - 1]);
                assert(ir.contains(x));
                if x == k {
                    assert(m.contains_key(ks[0]));
                } else {
                    assert(rest.contains(x));
                    let u = choose|u: int| 0 <= u < rest.len() && rest[u] == x;
                    assert(ks[u + 1] == x);
                }
            } else {
                assert(r[i] == ir[i - 1] && r[j] == ir[j - 1]);
            }
        }
    }
}

/// Sorting puts the keys in order and keeps exactly the keys given.
pub proof fn lemma_sort_keys(m: Map<Seq<char>, NormV>, ks: Seq<Seq<char>>)
    requires
        all_indexed(m, ks),
    ensures
        in_order(m, sort_keys(m, ks)),
        all_indexed(m, sort_keys(m, ks)),
        forall|x: Seq<char>| #[trigger] sort_keys(m, ks).contains(x) <==> ks.contains(x),
        ks.no_duplicates() ==> sort_keys(m, ks).no_duplicates(),
    decreases ks.len(),
{
    if ks.len() > 0 {
        let init = ks.drop_last();
        assert(all_indexed(m, init)) by {
            assert forall|i: int| 0 <= i < init.len() implies m.contains_key(#[trigger] init[i]) by {
                assert(init[i] == ks[i]);
            }
        }
        lemma_sort_keys(m, init);
        let s = sort_keys(m, init);
        lemma_insert_sorted_in_order(m, s, ks.last());
        lemma_insert_sorted_contents(m, s, ks.last());
        let r = sort_keys(m, ks);
        assert forall|x: Seq<char>| #[trigger] r.contains(x) <==> ks.contains(x) by {
            if ks.contains(x) {
                let t = choose|t: int| 0 <= t < ks.len() && ks[t] == x;
                if t < ks.len() - 1 {
                    assert(init[t] == x);
                }
            }
            if init.contains(x) {
                let t = choose|t: int| 0 <= t < init.len() && init[t] == x;
                assert(ks[t] == x);
            }
        }
        assert(all_indexed(m, r)) by {
            assert forall|i: int| 0 <= i < r.len() implies m.contains_key(#[trigger] r[i]) by {
                assert(r.contains(r[i]));
                let t = choose|t: int| 0 <= t < ks.len() && ks[t] == r[i];
            }
        }
        if ks.no_duplicates() {
            assert(init.no_duplicates());
            assert(!init.contains(ks.last())) by {
                if init.contains(ks.last()) {
                    let t = choose|t: int| 0 <= t < init.len() && init[t] == ks.last();
                    assert(ks[t] == ks[ks.len() - 1]);
                }
            }
        }
    }
}

/// Two orderings of the same keys, both in order, with distinct ranks, are equal.
proof fn lemma_in_order_unique(m: Map<Seq<char>, NormV>, s1: Seq<Seq<char>>, s2: Seq<Seq<char>>)
    requires
        in_order(m, s1),
        in_order(m, s2),
        s1.no_duplicates(),
        s2.no_duplicates(),
        forall|x: Seq<char>| s1.contains(x) <==> s2.contains(x),
        distinct_ranks(m, s1),
    ensures
        s1 == s2,
    decreases s1.len(),
{
    if s1.len() == 0 {
        if s2.len() > 0 {
            assert(s2.contains(s2[0]));
        }
        assert(s1 =~= s2);
    } else {
        assert(s1.contains(s1[0]));
        assert(s2.len() > 0);
        let a = s1[0];
        let b = s2[0];
        if a != b {
            assert(s2.contains(b));
            assert(s1.contains(b));
            lemma_precedes_order(rank_in(m, a), rank_in(m, b), rank_in(m, a));
            let ja = choose|j: int| 0 <= j < s2.len() && s2[j] == a;
            let jb = choose|j: int| 0 <= j < s1.len() && s1[j] == b;
            assert(ja > 0 && jb > 0);
            assert(!precedes(rank_in(m, s2[ja]), rank_in(m, s2[0])));
            assert(!precedes(rank_in(m, s1[jb]), rank_in(m, s1[0])));
            assert(rank_in(m, a) != rank_in(m, b));
        }
        let r1 = s1.drop_first();
        let r2 = s2.drop_first();
        assert forall|x: Seq<char>| r1.contains(x) <==> r2.contains(x) by {
            if r1.contains(x) {
                let t = choose|t: int| 0 <= t < r1.len() && r1[t] == x;
                assert(s1[t + 1] == x);
                assert(x != a);
                assert(s2.contains(x));
                let u = choose|u: int| 0 <= u < s2.len() && s2[u] == x;
                assert(u > 0);
                assert(r2[u - 1] == x);
            }
            if r2.contains(x) {
                let t = choose|t: int| 0 <= t < r2.len() && r2[t] == x;
                assert(s2[t + 1] == x);
                assert(x != b);
                assert(s1.contains(x));
                let u = choose|u: int| 0 <= u < s1.len() && s1[u] == x;
                assert(u > 0);
                assert(r1[u - 1] == x);
            }
        }
        assert(in_order(m, r1)) by {
            assert forall|i: int, j: int| 0 <= i < j < r1.len() implies !precedes(
                rank_in(m, #[trigger] r1[j]),
                rank_in(m, #[trigger] r1[i]),
            ) by {
                assert(r1[i] == s1[i + 1] && r1[j] == s1[j + 1]);
            }
        }
        assert(in_order(m, r2)) by {
            assert forall|i: int, j: int| 0 <= i < j < r2.len() implies !precedes(
                rank_in(m, #[trigger] r2[j]),
                rank_in(m, #[trigger] r2[i]),
            ) by {
                assert(r2[i] == s2[i + 1] && r2[j] == s2[j + 1]);
            }
        }
        assert(r1.no_duplicates()) by {
            assert forall|i: int, j: int| 0 <= i < j < r1.len() implies r1[i] != r1[j] by {
                assert(r1[i] == s1[i + 1] && r1[j] == s1[j + 1]);
            }
        }
        assert(r2.no_duplicates()) by {
            assert forall|i: int, j: int| 0 <= i < j < r2.len() implies r2[i] != r2[j] by {
                assert(r2[i] == s2[i + 1] && r2[j] == s2[j + 1]);
            }
        }
        assert(distinct_ranks(m, r1)) by {
            assert forall|x: Seq<char>, y: Seq<char>|
                r1.contains(x) && r1.contains(y) && x != y implies #[trigger] rank_in(m, x) != #[trigger] rank_in(m, y) by {
                let t = choose|t: int| 0 <= t < r1.len() && r1[t] == x;
                let u = choose|u: int| 0 <= u < r1.len() && r1[u] == y;
                assert(s1[t + 1] == x && s1[u + 1] == y);
                assert(s1.contains(x) && s1.contains(y));
            }
        }
        lemma_in_order_unique(m, r1, r2);
        assert(s1 =~= seq![a] + r1);
        assert(s2 =~= seq![b] + r2);
    }
}

/// Siblings come out in the same order whatever order they were inserted in: directories
/// first, then by lower-cased id (files) or name (directories), provided no two of them rank
/// alike.
pub proof fn lemma_sort_order_independent(
    m: Map<Seq<char>, NormV>,
    ks1: Seq<Seq<char>>,
    ks2: Seq<Seq<char>>,
)
    requires
        all_indexed(m, ks1),
        ks1.no_duplicates(),
        ks2.no_duplicates(),
        forall|x: Seq<char>| ks1.contains(x) <==> ks2.contains(x),
        distinct_ranks(m, ks1),
    ensures
        sort_keys(m, ks1) == sort_keys(m, ks2),
        in_order(m, sort_keys(m, ks1)),
{
    assert(all_indexed(m, ks2)) by {
        assert forall|i: int| 0 <= i < ks2.len() implies m.contains_key(#[trigger] ks2[i]) by {
            assert(ks2.contains(ks2[i]));
            let t = choose|t: int| 0 <= t < ks1.len() && ks1[t] == ks2[i];
        }
    }
    lemma_sort_keys(m, ks1);
    lemma_sort_keys(m, ks2);
    let s1 = sort_keys(m, ks1);
    assert(distinct_ranks(m, s1)) by {
        assert forall|x: Seq<char>, y: Seq<char>|
            s1.contains(x) && s1.contains(y) && x != y implies #[trigger] rank_in(m, x) != #[trigger] rank_in(m, y) by {
            assert(ks1.contains(x) && ks1.contains(y));
        }
    }
    lemma_in_order_unique(m, s1, sort_keys(m, ks2));
}

/// The entry under `k` names its parent correctly: none at the root level; else the indexed
/// directory one level up, which lists `k` among its children.
pub open spec fn parent_linked(m: Map<Seq<char>, NormV>, k: Seq<char>) -> bool {
    let p = m[k].path;
    if p.len() == 1 {
        m[k].parent_key is None
    } else {
        &&& m[k].parent_key == Some(parent_key_of(p))
        &&& m.contains_key(parent_key_of(p))
        &&& !m[parent_key_of(p)].is_file
        &&& m[parent_key_of(p)].children_keys.contains(k)
    }
}

/// The flat map is consistent: each key encodes its entry's valid path, each entry names its
/// parent correctly, each listed child is indexed and names this entry as its parent, and no
/// child is listed twice.
pub open spec fn linked(m: Map<Seq<char>, NormV>) -> bool {
    &&& forall|k: Seq<char>| #[trigger] m.contains_key(k) ==> k == key_of(m[k].path) && valid_path(m[k].path)
    &&& forall|k: Seq<char>| #[trigger] m.contains_key(k) ==> parent_linked(m, k)
    &&& forall|k: Seq<char>, c: Seq<char>|
        #[trigger] m.contains_key(k) && #[trigger] m[k].children_keys.contains(c) ==> m.contains_key(c)
            && m[c].parent_key == Some(k)
    &&& forall|k: Seq<char>| #[trigger] m.contains_key(k) ==> m[k].children_keys.no_duplicates()
}

/// Valid paths with the same key are the same path.
pub proof fn lemma_key_injective(a: Seq<Seq<char>>, b: Seq<Seq<char>>)
    requires
        valid_path(a),
        valid_path(b),
        key_of(a) == key_of(b),
    ensures
        a == b,
{
    lemma_round_trip(a);
    lemma_round_trip(b);
}

/// The empty map is consistent.
pub proof fn lemma_empty_linked()
    ensures
        linked(Map::<Seq<char>, NormV>::empty()),
{
}

/// Creating a node keeps the flat map consistent.
pub proof fn lemma_create_keeps_linked(m: Map<Seq<char>, NormV>, p: Seq<Seq<char>>, is_file: bool)
    requires
        linked(m),
        valid_path(p),
        !m.contains_key(key_of(p)),
        parent_ok(m, p),
    ensures
        linked(created_map(m, p, is_file)),
{
    let k = key_of(p);
    let m1 = m.insert(k, leaf_of(p, is_file));
    let r = created_map(m, p, is_file);
    let pk = parent_key_of(p);
    if p.len() > 1 {
        lemma_insert_sorted_contents(m1, m1[pk].children_keys, k);
        assert(!m[pk].children_keys.contains(k));
    }
    assert forall|q: Seq<char>| #[trigger] r.contains_key(q) implies q == key_of(r[q].path) && valid_path(
        r[q].path,
    ) by {
        if q != k && q != pk {
            assert(m.contains_key(q));
        }
    }
    assert forall|q: Seq<char>| #[trigger] r.contains_key(q) implies parent_linked(r, q) by {
        if q == k {
            if p.len() > 1 {
                assert(r[pk].children_keys.contains(k));
            }
        } else {
            assert(m.contains_key(q));
            assert(parent_linked(m, q));
            let qp = r[q].path;
            if qp.len() > 1 {
                let qk = parent_key_of(qp);
                assert(m.contains_key(qk));
                assert(qk != k);
                if p.len() > 1 && qk == pk {
                    assert(m[pk].children_keys.contains(q));
                    assert(r[pk].children_keys.contains(q));
                }
            }
        }
    }
    assert forall|q: Seq<char>, c: Seq<char>|
        #[trigger] r.contains_key(q) && #[trigger] r[q].children_keys.contains(c) implies r.contains_key(c)
            && r[c].parent_key == Some(q) by {
        if q == k {
            assert(r[k].children_keys =~= Seq::<Seq<char>>::empty());
        } else if p.len() > 1 && q == pk {
            if c != k {
                assert(m[pk].children_keys.contains(c));
            }
        } else {
            assert(m[q].children_keys.contains(c));
            assert(m.contains_key(c));
        }
    }
    assert forall|q: Seq<char>| #[trigger] r.contains_key(q) implies r[q].children_keys.no_duplicates() by {
        if q == k {
        } else if p.len() > 1 && q == pk {
        } else {
            assert(m.contains_key(q));
        }
    }
}

/// Removing a key keeps exactly the other keys, without duplicates.
pub proof fn lemma_without(ks: Seq<Seq<char>>, k: Seq<char>)
    ensures
        forall|x: Seq<char>| #[trigger] without(ks, k).contains(x) <==> (ks.contains(x) && x != k),
        ks.no_duplicates() ==> without(ks, k).no_duplicates(),
    decreases ks.len(),
{
    if ks.len() > 0 {
        let init = ks.drop_last();
        lemma_without(init, k);
        let w = without(init, k);
        assert forall|x: Seq<char>| #[trigger] without(ks, k).contains(x) <==> (ks.contains(x) && x != k) by {
            if ks.contains(x) && x != k {
                let t = choose|t: int| 0 <= t < ks.len() && ks[t] == x;
                if t < ks.len() - 1 {
                    assert(init[t] == x);
                    assert(w.contains(x));
                    let u = choose|u: int| 0 <= u < w.len() && w[u] == x;
                    if ks.last() != k {
                        assert(w.push(ks.last())[u] == x);
                    }
                } else {
                    assert(w.push(ks.last())[w.len() as int] == x);
                }
            }
            if without(ks, k).contains(x) {
                let t = choose|t: int| 0 <= t < without(ks, k).len() && without(ks, k)[t] == x;
                if ks.last() != k && t == w.len() {
                    assert(ks[ks.len() - 1] == x);
                } else {
                    assert(w[t] == x);
                    assert(w.contains(x));
                    let u = choose|u: int| 0 <= u < init.len() && init[u] == x;
                    assert(ks[u] == x);
                }
            }
        }
        if ks.no_duplicates() {
            assert(init.no_duplicates());
            if ks.last() != k {
                assert(!w.contains(ks.last())) by {
                    if w.contains(ks.last()) {
                        let u = choose|u: int| 0 <= u < init.len() && init[u] == ks.last();
                        assert(ks[u] == ks[ks.len() - 1]);
                    }
                }
                let r = w.push(ks.last());
                assert forall|a: int, b: int| 0 <= a < b < r.len() implies r[a] != r[b] by {
                    if b == w.len() {
                        assert(w.contains(r[a]));
                    }
                }
            }
        }
    }
}

/// How a prefix of a path relates to a prefix of its parent path.
proof fn lemma_prefix_of_parent(q: Seq<Seq<char>>, p: Seq<Seq<char>>)
    requires
        q.len() >= 1,
    ensures
        has_prefix(q.drop_last(), p) ==> has_prefix(q, p),
        has_prefix(q, p) && q.len() > p.len() ==> has_prefix(q.drop_last(), p),
{
    if has_prefix(q.drop_last(), p) {
        assert(q.take(p.len() as int) =~= q.drop_last().take(p.len() as int));
    }
    if has_prefix(q, p) && q.len() > p.len() {
        assert(q.take(p.len() as int) =~= q.drop_last().take(p.len() as int));
    }
}

/// Deleting a node, with every node below it, keeps the flat map consistent.
pub proof fn lemma_delete_keeps_linked(m: Map<Seq<char>, NormV>, k: Seq<char>)
    requires
        linked(m),
        m.contains_key(k),
    ensures
        linked(deleted_map(m, k)),
{
    let pp = m[k].path;
    let m1 = m.restrict(m.dom().filter(|q: Seq<char>| !has_prefix(m[q].path, pp)));
    let r = deleted_map(m, k);
    assert(pp.take(pp.len() as int) =~= pp);
    assert(!m1.contains_key(k));
    assert(parent_linked(m, k));
    let pk = parent_key_of(pp);
    if pp.len() > 1 {
        assert(m.contains_key(pk));
        assert(m[pk].path == pp.drop_last()) by {
            assert(valid_path(m[pk].path));
            assert(valid_path(pp.drop_last()));
            lemma_key_injective(m[pk].path, pp.drop_last());
        }
        assert(!has_prefix(m[pk].path, pp));
        assert(m1.contains_key(pk));
        lemma_without(m1[pk].children_keys, k);
    }
    assert forall|q: Seq<char>| #[trigger] r.contains_key(q) implies m1.contains_key(q) && (r[q] == m1[q]
        || (pp.len() > 1 && q == pk)) by {}
    assert forall|q: Seq<char>| #[trigger] r.contains_key(q) implies q == key_of(r[q].path) && valid_path(
        r[q].path,
    ) by {
        assert(m.contains_key(q));
    }
    assert forall|q: Seq<char>| #[trigger] r.contains_key(q) implies parent_linked(r, q) by {
        assert(m.contains_key(q));
        assert(parent_linked(m, q));
        let qp = m[q].path;
        if qp.len() > 1 {
            let qk = parent_key_of(qp);
            assert(m[qk].path == qp.drop_last()) by {
                assert(valid_path(m[qk].path));
                assert(valid_path(qp.drop_last()));
                lemma_key_injective(m[qk].path, qp.drop_last());
            }
            lemma_prefix_of_parent(qp, pp);
            assert(!has_prefix(m[qk].path, pp));
            assert(m1.contains_key(qk));
            assert(q != k);
            if pp.len() > 1 && qk == pk {
                assert(r[pk].children_keys.contains(q));
            }
        }
    }
    assert forall|q: Seq<char>, c: Seq<char>|
        #[trigger] r.contains_key(q) && #[trigger] r[q].children_keys.contains(c) implies r.contains_key(c)
            && r[c].parent_key == Some(q) by {
        assert(m.contains_key(q));
        assert(m[q].children_keys.contains(c));
        assert(m.contains_key(c));
        assert(m[c].parent_key == Some(q));
        let cp = m[c].path;
        assert(parent_linked(m, c));
        if cp.len() == 1 {
            assert(false);
        }
        assert(q == parent_key_of(cp));
        assert(m[q].path == cp.drop_last()) by {
            assert(valid_path(m[q].path));
            assert(valid_path(cp.drop_last()));
            lemma_key_injective(m[q].path, cp.drop_last());
        }
        if has_prefix(cp, pp) {
            if cp.len() > pp.len() {
                lemma_prefix_of_parent(cp, pp);
                assert(!m1.contains_key(q));
                assert(false);
            } else {
                assert(cp =~= pp);
                assert(c == k);
                assert(pp.len() > 1 && q == pk);
                assert(!r[pk].children_keys.contains(k));
                assert(false);
            }
        }
        assert(m1.contains_key(c));
    }
    assert forall|q: Seq<char>| #[trigger] r.contains_key(q) implies r[q].children_keys.no_duplicates() by {
        assert(m.contains_key(q));
    }
}

/// Every map that a scan builds is consistent.
pub proof fn lemma_scan_linked(items: Seq<ScanItem>, ignore: Seq<Seq<char>>)
    ensures
        linked(scanned_map(items, ignore)),
    decreases items.len(),
{
    if items.len() > 0 {
        let prev = scanned_map(items.drop_last(), ignore);
        lemma_scan_linked(items.drop_last(), ignore);
        let it = items.last();
        let r = scan_step(prev, crate::codec::segs_view(it.path@), it.is_dir, ignore);
        if r != prev {
            let p = crate::codec::path_of_key(
                key_of(crate::scan::doc_path_of(crate::codec::segs_view(it.path@), it.is_dir)),
            );
            lemma_create_keeps_linked(prev, p, !it.is_dir);
        }
    }
}

/// Without collisions, the moved map holds each node under its new key.
proof fn lemma_moved_lookup(
    m: Map<Seq<char>, NormV>,
    k: Seq<char>,
    p: Seq<Seq<char>>,
    p2: Seq<Seq<char>>,
    nn: Seq<char>,
    q: Seq<char>,
)
    requires
        !rename_collides(m, p, p2),
        m.contains_key(q),
    ensures
        moved_map(m, k, p, p2, nn).contains_key(rekey(m, q, p, p2)),
        moved_map(m, k, p, p2, nn)[rekey(m, q, p, p2)] == moved_value(m, q, k, p, p2, nn),
{
    reveal(moved_map);
    reveal(resorted_map);
    reveal(renamed_map);
    let q2 = rekey(m, q, p, p2);
    let ma = moved_map(m, k, p, p2, nn);
    assert(ma.contains_key(q2));
    let w = choose|w: Seq<char>| m.contains_key(w) && #[trigger] rekey(m, w, p, p2) == q2;
    if w != q {
        assert(rename_collides(m, p, p2));
    }
}

/// In a consistent map, a nested node's parent entry lies one level up and lists it.
proof fn lemma_parent_facts(m: Map<Seq<char>, NormV>, q: Seq<char>)
    requires
        linked(m),
        m.contains_key(q),
        m[q].path.len() > 1,
    ensures
        m.contains_key(parent_key_of(m[q].path)),
        m[parent_key_of(m[q].path)].path == m[q].path.drop_last(),
        !m[parent_key_of(m[q].path)].is_file,
        m[parent_key_of(m[q].path)].children_keys.contains(q),
        m[q].parent_key == Some(parent_key_of(m[q].path)),
{
    assert(parent_linked(m, q));
    let qk = parent_key_of(m[q].path);
    assert(valid_path(m[qk].path));
    assert(valid_path(m[q].path.drop_last()));
    lemma_key_injective(m[qk].path, m[q].path.drop_last());
}

/// In a consistent map, a listed child lies one level below its parent.
proof fn lemma_child_facts(m: Map<Seq<char>, NormV>, q: Seq<char>, c: Seq<char>)
    requires
        linked(m),
        m.contains_key(q),
        m[q].children_keys.contains(c),
    ensures
        m.contains_key(c),
        m[c].path.len() > 1,
        q == parent_key_of(m[c].path),
        m[q].path == m[c].path.drop_last(),
        m[c].parent_key == Some(q),
{
    assert(m.contains_key(c));
    assert(parent_linked(m, c));
    if m[c].path.len() == 1 {
        assert(false);
    }
    lemma_parent_facts(m, c);
}

/// A node strictly below the renamed node has its parent below it as well.
proof fn lemma_under_facts(m: Map<Seq<char>, NormV>, k: Seq<char>, q: Seq<char>)
    requires
        linked(m),
        m.contains_key(k),
        m.contains_key(q),
        under(m, q, m[k].path),
        q != k,
    ensures
        m[q].path.len() > m[k].path.len(),
        m[q].path.len() > 1,
        under(m, parent_key_of(m[q].path), m[k].path),
        m[parent_key_of(m[q].path)].path == m[q].path.drop_last(),
{
    let pp = m[k].path;
    let qp = m[q].path;
    if qp.len() == pp.len() {
        assert(qp =~= pp);
        assert(false);
    }
    assert(pp.len() >= 1);
    lemma_parent_facts(m, q);
    lemma_prefix_of_parent(qp, pp);
}

/// Moving a path keeps it valid and of the same length.
proof fn lemma_moved_valid(p: Seq<Seq<char>>, p2: Seq<Seq<char>>, q: Seq<Seq<char>>)
    requires
        valid_path(p2),
        valid_path(q),
        p.len() == p2.len(),
        p.len() <= q.len(),
    ensures
        valid_path(moved(q, p, p2)),
        moved(q, p, p2).len() == q.len(),
        q.len() > p.len() ==> moved(q, p, p2).drop_last() == moved(q.drop_last(), p, p2),
{
    let mv = moved(q, p, p2);
    assert forall|i: int| 0 <= i < mv.len() implies (#[trigger] mv[i]).len() > 0 && has_no_slash(mv[i]) by {
        if i < p2.len() {
            assert(mv[i] == p2[i]);
        } else {
            assert(mv[i] == q[i]);
        }
    }
    if q.len() > p.len() {
        assert(mv.drop_last() =~= moved(q.drop_last(), p, p2));
    }
}

/// The renamed map before the moved child lists are put back in order.
pub open spec fn relinked_map(m: Map<Seq<char>, NormV>, k: Seq<char>, nn: Seq<char>) -> Map<Seq<char>, NormV> {
    let p = m[k].path;
    let p2 = renamed_path(m, k, nn);
    let ma = moved_map(m, k, p, p2, nn);
    match m[k].parent_key {
        Some(pk) => if ma.contains_key(pk) && !under(m, pk, p) {
            ma.insert(
                pk,
                NormV {
                    children_keys: insert_sorted(ma, crate::service::without(ma[pk].children_keys, k), key_of(p2)),
                    ..ma[pk]
                },
            )
        } else {
            ma
        },
        None => ma,
    }
}

/// Moving the nodes keeps the flat map consistent, where no two nodes would come to share a
/// key.
proof fn lemma_relinked(m: Map<Seq<char>, NormV>, k: Seq<char>, nn: Seq<char>)
    requires
        linked(m),
        m.contains_key(k),
        nn.len() > 0,
        has_no_slash(nn),
        nn != m[k].path.last(),
        !rename_collides(m, m[k].path, renamed_path(m, k, nn)),
    ensures
        linked(relinked_map(m, k, nn)),
{
    reveal(moved_map);
    reveal(resorted_map);
    reveal(renamed_map);
    let pp = m[k].path;
    let p2 = renamed_path(m, k, nn);
    let ma = moved_map(m, k, pp, p2, nn);
    let r = relinked_map(m, k, nn);
    let k2 = key_of(p2);
    assert(valid_path(pp));
    assert(valid_path(p2)) by {
        assert forall|i: int| 0 <= i < p2.len() implies (#[trigger] p2[i]).len() > 0 && has_no_slash(p2[i]) by {
            if i < pp.len() - 1 {
                assert(p2[i] == pp[i]);
            }
        }
    }
    assert(pp.take(pp.len() as int) =~= pp);
    assert(under(m, k, pp));
    assert(moved(pp, pp, p2) =~= p2);
    assert(rekey(m, k, pp, p2) == k2);
    lemma_moved_lookup(m, k, pp, p2, nn, k);
    let pk = parent_key_of(pp);
    let has_parent = pp.len() > 1;
    if has_parent {
        lemma_parent_facts(m, k);
        assert(!has_prefix(m[pk].path, pp));
        assert(!under(m, pk, pp));
        lemma_moved_lookup(m, k, pp, p2, nn, pk);
        assert(rekey(m, pk, pp, p2) == pk);
        assert(ma.contains_key(pk));
        assert(ma[pk] == m[pk]);
        assert(p2.drop_last() =~= pp.drop_last());
        lemma_without(m[pk].children_keys, k);
        lemma_insert_sorted_contents(ma, crate::service::without(m[pk].children_keys, k), k2);
        assert(k2 != pk) by {
            if k2 == pk {
                assert(rekey(m, k, pp, p2) == rekey(m, pk, pp, p2));
                assert(rename_collides(m, pp, p2));
            }
        }
    }
    // Every key of the result comes from some key of `m`.
    assert forall|q2: Seq<char>| #[trigger] r.contains_key(q2) implies exists|q: Seq<char>|
        m.contains_key(q) && #[trigger] rekey(m, q, pp, p2) == q2 by {
        assert(ma.contains_key(q2));
    }
    // What the result holds under the new key of each node of `m`.
    assert forall|q: Seq<char>| #[trigger] m.contains_key(q) implies r.contains_key(rekey(m, q, pp, p2))
        && (if has_parent && q == pk {
            r[pk] == NormV {
                children_keys: insert_sorted(ma, crate::service::without(m[pk].children_keys, k), k2),
                ..m[pk]
            }
        } else {
            r[rekey(m, q, pp, p2)] == moved_value(m, q, k, pp, p2, nn)
        }) by {
        lemma_moved_lookup(m, k, pp, p2, nn, q);
        if has_parent && q != pk && rekey(m, q, pp, p2) == pk {
            assert(rekey(m, pk, pp, p2) == pk);
            assert(rename_collides(m, pp, p2));
        }
    }
    assert forall|q2: Seq<char>| #[trigger] r.contains_key(q2) implies q2 == key_of(r[q2].path)
        && valid_path(r[q2].path) && parent_linked(r, q2) && r[q2].children_keys.no_duplicates() by {
        let q = choose|q: Seq<char>| m.contains_key(q) && #[trigger] rekey(m, q, pp, p2) == q2;
        assert(m.contains_key(q));
        assert(valid_path(m[q].path));
        assert(q == key_of(m[q].path));
        assert(parent_linked(m, q));
        if under(m, q, pp) {
            lemma_moved_valid(pp, p2, m[q].path);
            let e = renamed_entry(m, q, k, pp, p2, nn);
            assert(r[q2] == e);
            if q == k {
                if has_parent {
                    assert(r[pk].children_keys.contains(k2));
                }
            } else {
                lemma_under_facts(m, k, q);
                let qk = parent_key_of(m[q].path);
                lemma_parent_facts(m, q);
                lemma_moved_valid(pp, p2, m[qk].path);
                assert(m.contains_key(qk));
                assert(rekey(m, qk, pp, p2) == key_of(moved(m[q].path, pp, p2).drop_last()));
                if has_parent && qk == pk {
                    assert(!under(m, pk, pp));
                    assert(false);
                }
                let pe = renamed_entry(m, qk, k, pp, p2, nn);
                assert(r[rekey(m, qk, pp, p2)] == pe);
                let t = choose|t: int| 0 <= t < m[qk].children_keys.len() && m[qk].children_keys[t] == q;
                assert(pe.children_keys[t] == q2);
            }
            // No key is listed twice among the moved children.
            let ch = m[q].children_keys;
            assert(m[q].children_keys.no_duplicates());
            assert forall|a: int, b: int| 0 <= a < b < e.children_keys.len() implies e.children_keys[a]
                != e.children_keys[b] by {
                lemma_child_facts(m, q, ch[a]);
                lemma_child_facts(m, q, ch[b]);
                if rekey(m, ch[a], pp, p2) == rekey(m, ch[b], pp, p2) {
                    assert(rename_collides(m, pp, p2));
                }
            }
        } else {
            assert(rekey(m, q, pp, p2) == q);
            if m[q].path.len() > 1 {
                let qk = parent_key_of(m[q].path);
                lemma_parent_facts(m, q);
                lemma_prefix_of_parent(m[q].path, pp);
                assert(!under(m, qk, pp));
                assert(rekey(m, qk, pp, p2) == qk);
                if has_parent && qk == pk {
                    assert(q != k);
                    assert(r[pk].children_keys.contains(q));
                } else {
                    assert(r[qk] == m[qk]);
                }
            }
            if has_parent && q == pk {
                let w = crate::service::without(m[pk].children_keys, k);
                assert(!w.contains(k2)) by {
                    if w.contains(k2) {
                        assert(m[pk].children_keys.contains(k2));
                        lemma_child_facts(m, pk, k2);
                        if under(m, k2, pp) {
                            let cp = m[k2].path;
                            if cp.len() > pp.len() {
                                lemma_prefix_of_parent(cp, pp);
                                assert(under(m, pk, pp));
                            } else {
                                assert(cp =~= pp);
                            }
                        }
                        assert(rekey(m, k2, pp, p2) == k2);
                        assert(rename_collides(m, pp, p2));
                    }
                }
            }
        }
    }
    assert forall|q2: Seq<char>, c2: Seq<char>|
        #[trigger] r.contains_key(q2) && #[trigger] r[q2].children_keys.contains(c2) implies r.contains_key(c2)
            && r[c2].parent_key == Some(q2) by {
        let q = choose|q: Seq<char>| m.contains_key(q) && #[trigger] rekey(m, q, pp, p2) == q2;
        if has_parent && q == pk {
            assert(!under(m, pk, pp));
            if c2 == k2 {
                assert(r[k2] == renamed_entry(m, k, k, pp, p2, nn));
                assert(m[k].parent_key == Some(pk));
            } else {
                let w = crate::service::without(m[pk].children_keys, k);
                assert(w.contains(c2));
                lemma_child_facts(m, pk, c2);
                if under(m, c2, pp) {
                    let cp = m[c2].path;
                    if cp.len() > pp.len() {
                        lemma_prefix_of_parent(cp, pp);
                    } else {
                        assert(cp =~= pp);
                    }
                }
                assert(rekey(m, c2, pp, p2) == c2);
                assert(c2 != pk);
            }
        } else if under(m, q, pp) {
            let e = renamed_entry(m, q, k, pp, p2, nn);
            let t = choose|t: int| 0 <= t < e.children_keys.len() && e.children_keys[t] == c2;
            let c = m[q].children_keys[t];
            assert(m[q].children_keys.contains(c));
            lemma_child_facts(m, q, c);
            lemma_prefix_of_parent(m[c].path, pp);
            assert(under(m, c, pp));
            assert(c != k) by {
                if c == k {
                    assert(m[c].path.len() > pp.len()) by {
                        lemma_under_facts(m, k, q);
                    }
                }
            }
            assert(c2 == rekey(m, c, pp, p2));
            lemma_moved_valid(pp, p2, m[c].path);
            if has_parent && c2 == pk {
                assert(rename_collides(m, pp, p2));
            }
            assert(r[c2] == renamed_entry(m, c, k, pp, p2, nn));
            if q == k {
                assert(m[q].path == pp);
                assert(moved(m[c].path.drop_last(), pp, p2) =~= p2);
            }
        } else {
            assert(r[q2] == m[q]);
            assert(m[q].children_keys.contains(c2));
            lemma_child_facts(m, q, c2);
            if under(m, c2, pp) {
                let cp = m[c2].path;
                if cp.len() > pp.len() {
                    lemma_prefix_of_parent(cp, pp);
                    assert(under(m, q, pp));
                } else {
                    assert(cp =~= pp);
                    assert(c2 == k);
                    assert(q == pk);
                }
            }
            assert(rekey(m, c2, pp, p2) == c2);
            if has_parent && c2 == pk {
                assert(r[pk].parent_key == m[pk].parent_key);
            }
        }
    }
}

/// `a` is `b` but for its child list.
pub open spec fn same_but_children(a: NormV, b: NormV) -> bool {
    a == NormV { children_keys: a.children_keys, ..b }
}

/// Consistency depends on each child list only through the keys it holds, once each.
proof fn lemma_linked_same_children(m1: Map<Seq<char>, NormV>, m2: Map<Seq<char>, NormV>)
    requires
        linked(m1),
        forall|q: Seq<char>| #[trigger] m2.contains_key(q) == m1.contains_key(q),
        forall|q: Seq<char>| #[trigger] m2.contains_key(q) ==> same_but_children(m2[q], m1[q]),
        forall|q: Seq<char>, x: Seq<char>| m2.contains_key(q) ==> (#[trigger] m2[q].children_keys.contains(x) == m1[q].children_keys.contains(x)),
        forall|q: Seq<char>| #[trigger] m2.contains_key(q) ==> m2[q].children_keys.no_duplicates(),
    ensures
        linked(m2),
{
    assert forall|q: Seq<char>| #[trigger] m2.contains_key(q) implies parent_linked(m2, q) by {
        assert(parent_linked(m1, q));
        if m1[q].path.len() > 1 {
            let pk = parent_key_of(m1[q].path);
            assert(m1[pk].children_keys.contains(q));
            assert(m2[pk].children_keys.contains(q));
        }
    }
    assert forall|q: Seq<char>, c: Seq<char>|
        #[trigger] m2.contains_key(q) && #[trigger] m2[q].children_keys.contains(c) implies m2.contains_key(c)
            && m2[c].parent_key == Some(q) by {
        assert(m1[q].children_keys.contains(c));
    }
}

/// The preconditions of a rename that changes the name.
#[verifier::opaque]
pub open spec fn rename_ok(m: Map<Seq<char>, NormV>, k: Seq<char>, nn: Seq<char>) -> bool {
    &&& linked(m)
    &&& m.contains_key(k)
    &&& nn.len() > 0
    &&& has_no_slash(nn)
    &&& nn != m[k].path.last()
    &&& !rename_collides(m, m[k].path, renamed_path(m, k, nn))
}

/// Once re-sorted, the renamed node's parent lists the same keys, once each.
proof fn lemma_rename_parent_list(m: Map<Seq<char>, NormV>, k: Seq<char>, nn: Seq<char>)
    requires
        rename_ok(m, k, nn),
        m[k].path.len() > 1,
    ensures
        ({
            let pk = parent_key_of(m[k].path);
            let r = renamed_map(m, k, nn);
            let old_r = relinked_map(m, k, nn);
            &&& r.contains_key(pk) && old_r.contains_key(pk)
            &&& same_but_children(r[pk], old_r[pk])
            &&& forall|x: Seq<char>| #[trigger] r[pk].children_keys.contains(x) == old_r[pk].children_keys.contains(x)
            &&& r[pk].children_keys.no_duplicates()
        }),
{
    reveal(rename_ok);
    reveal(moved_map);
    reveal(resorted_map);
    reveal(renamed_map);
    let pp = m[k].path;
    let p2 = renamed_path(m, k, nn);
    let ma = moved_map(m, k, pp, p2, nn);
    let rs = crate::service::resorted_map(m, k, pp, p2, nn);
    let old_r = relinked_map(m, k, nn);
    lemma_relinked(m, k, nn);
    let k2 = key_of(p2);
    let pk = parent_key_of(pp);
    assert(pp.take(pp.len() as int) =~= pp);
    assert(moved(pp, pp, p2) =~= p2);
    lemma_parent_facts(m, k);
    assert(!under(m, pk, pp));
    lemma_moved_lookup(m, k, pp, p2, nn, pk);
    assert(rekey(m, pk, pp, p2) == pk);
    assert(!crate::service::is_moved_key(m, pk, pp, p2)) by {
        if crate::service::is_moved_key(m, pk, pp, p2) {
            let q = choose|q: Seq<char>| m.contains_key(q) && under(m, q, pp) && #[trigger] rekey(m, q, pp, p2) == pk;
            assert(rename_collides(m, pp, p2));
        }
    }
    assert(rs[pk] == ma[pk]);
    let w = crate::service::without(ma[pk].children_keys, k);
    lemma_without(ma[pk].children_keys, k);
    lemma_insert_sorted_contents(rs, w, k2);
    lemma_insert_sorted_contents(ma, w, k2);
    assert(ma[pk] == m[pk]);
    assert(!w.contains(k2)) by {
        if w.contains(k2) {
            assert(m[pk].children_keys.contains(k2));
            lemma_child_facts(m, pk, k2);
            if under(m, k2, pp) {
                let cp = m[k2].path;
                if cp.len() > pp.len() {
                    lemma_prefix_of_parent(cp, pp);
                } else {
                    assert(cp =~= pp);
                }
            }
            assert(rekey(m, k2, pp, p2) == k2);
            assert(rekey(m, k, pp, p2) == k2);
            assert(rename_collides(m, pp, p2));
        }
    }
}

/// Once re-sorted, a moved node lists the same keys, once each.
#[verifier::rlimit(60)]
proof fn lemma_rename_moved_list(m: Map<Seq<char>, NormV>, k: Seq<char>, nn: Seq<char>, q2: Seq<char>)
    requires
        rename_ok(m, k, nn),
        crate::service::is_moved_key(m, q2, m[k].path, renamed_path(m, k, nn)),
        m[k].path.len() > 1 ==> q2 != parent_key_of(m[k].path),
    ensures
        ({
            let r = renamed_map(m, k, nn);
            let old_r = relinked_map(m, k, nn);
            &&& r.contains_key(q2) && old_r.contains_key(q2)
            &&& same_but_children(r[q2], old_r[q2])
            &&& forall|x: Seq<char>| #[trigger] r[q2].children_keys.contains(x) == old_r[q2].children_keys.contains(x)
            &&& r[q2].children_keys.no_duplicates()
        }),
{
    reveal(rename_ok);
    reveal(moved_map);
    reveal(resorted_map);
    reveal(renamed_map);
    let pp = m[k].path;
    let p2 = renamed_path(m, k, nn);
    let ma = moved_map(m, k, pp, p2, nn);
    let old_r = relinked_map(m, k, nn);
    lemma_relinked(m, k, nn);
    let rs = crate::service::resorted_map(m, k, pp, p2, nn);
    let r = renamed_map(m, k, nn);
    let q = choose|q: Seq<char>| m.contains_key(q) && under(m, q, pp) && #[trigger] rekey(m, q, pp, p2) == q2;
    lemma_moved_lookup(m, k, pp, p2, nn, q);
    assert(ma.contains_key(q2));
    assert(rs.contains_key(q2));
    assert(rs[q2] == NormV { children_keys: sort_keys(ma, ma[q2].children_keys), ..ma[q2] });
    assert(r.contains_key(q2) && r[q2] == rs[q2]);
    assert(old_r.contains_key(q2) && old_r[q2] == ma[q2]);
    assert(old_r[q2].children_keys.no_duplicates());
    assert(all_indexed(ma, ma[q2].children_keys)) by {
        assert forall|i: int| 0 <= i < ma[q2].children_keys.len() implies ma.contains_key(#[trigger] ma[q2].children_keys[i]) by {
            crate::service::lemma_moved_children_present(m, k, pp, p2, nn, q, i);
        }
    }
    lemma_sort_keys(ma, ma[q2].children_keys);
}

/// Renaming a node keeps the flat map consistent, where no two nodes would come to share a
/// key.
pub proof fn lemma_rename_keeps_linked(m: Map<Seq<char>, NormV>, k: Seq<char>, nn: Seq<char>)
    requires
        linked(m),
        m.contains_key(k),
        nn.len() > 0,
        has_no_slash(nn),
        nn != m[k].path.last(),
        !rename_collides(m, m[k].path, renamed_path(m, k, nn)),
    ensures
        linked(renamed_map(m, k, nn)),
{
    reveal(rename_ok);
    reveal(moved_map);
    reveal(resorted_map);
    reveal(renamed_map);
    let pp = m[k].path;
    let p2 = renamed_path(m, k, nn);
    let old_r = relinked_map(m, k, nn);
    let r = renamed_map(m, k, nn);
    lemma_relinked(m, k, nn);
    let has_parent = pp.len() > 1;
    let pk = parent_key_of(pp);
    if has_parent {
        lemma_rename_parent_list(m, k, nn);
    }
    assert forall|q2: Seq<char>| #[trigger] r.contains_key(q2) == old_r.contains_key(q2) by {}
    assert forall|q2: Seq<char>| #[trigger] r.contains_key(q2) implies same_but_children(r[q2], old_r[q2])
        && (forall|x: Seq<char>| #[trigger] r[q2].children_keys.contains(x) == old_r[q2].children_keys.contains(x))
        && r[q2].children_keys.no_duplicates() by {
        assert(old_r[q2].children_keys.no_duplicates());
        if has_parent && q2 == pk {
        } else if crate::service::is_moved_key(m, q2, pp, p2) {
            lemma_rename_moved_list(m, k, nn, q2);
        }
    }
    lemma_linked_same_children(old_r, r);
}

/// Every child list is in order: directories first, then by lower-cased id or name.
pub open spec fn lists_in_order(m: Map<Seq<char>, NormV>) -> bool {
    forall|k: Seq<char>| #[trigger] m.contains_key(k) ==> in_order(m, m[k].children_keys)
}

/// Whether keys are in order depends only on their ranks.
pub proof fn lemma_in_order_congruent(m1: Map<Seq<char>, NormV>, m2: Map<Seq<char>, NormV>, ks: Seq<Seq<char>>)
    requires
        forall|i: int| 0 <= i < ks.len() ==> #[trigger] rank_in(m1, ks[i]) == rank_in(m2, ks[i]),
    ensures
        in_order(m1, ks) == in_order(m2, ks),
{
    if in_order(m1, ks) {
        assert forall|i: int, j: int| 0 <= i < j < ks.len() implies !precedes(rank_in(m2, #[trigger] ks[j]), rank_in(m2, #[trigger] ks[i])) by {
            assert(rank_in(m1, ks[i]) == rank_in(m2, ks[i]));
            assert(rank_in(m1, ks[j]) == rank_in(m2, ks[j]));
        }
    }
    if in_order(m2, ks) {
        assert forall|i: int, j: int| 0 <= i < j < ks.len() implies !precedes(rank_in(m1, #[trigger] ks[j]), rank_in(m1, #[trigger] ks[i])) by {
            assert(rank_in(m1, ks[i]) == rank_in(m2, ks[i]));
            assert(rank_in(m1, ks[j]) == rank_in(m2, ks[j]));
        }
    }
}

/// Removing a key keeps the others in order.
pub proof fn lemma_in_order_without(m: Map<Seq<char>, NormV>, ks: Seq<Seq<char>>, k: Seq<char>)
    requires
        in_order(m, ks),
    ensures
        in_order(m, crate::service::without(ks, k)),
    decreases ks.len(),
{
    if ks.len() > 0 {
        let init = ks.drop_last();
        assert(in_order(m, init)) by {
            assert forall|i: int, j: int| 0 <= i < j < init.len() implies !precedes(rank_in(m, #[trigger] init[j]), rank_in(m, #[trigger] init[i])) by {
                assert(init[i] == ks[i] && init[j] == ks[j]);
            }
        }
        lemma_in_order_without(m, init, k);
        lemma_without(init, k);
        let w = crate::service::without(init, k);
        if ks.last() != k {
            let r = w.push(ks.last());
            assert forall|i: int, j: int| 0 <= i < j < r.len() implies !precedes(rank_in(m, #[trigger] r[j]), rank_in(m, #[trigger] r[i])) by {
                if j == r.len() - 1 {
                    assert(w.contains(r[i]));
                    assert(init.contains(r[i]));
                    let t = choose|t: int| 0 <= t < init.len() && init[t] == r[i];
                    assert(ks[t] == r[i]);
                    assert(ks[ks.len() - 1] == r[j]);
                } else {
                    assert(r[i] == w[i] && r[j] == w[j]);
                }
            }
        }
    }
}

/// Maps that differ only in child lists rank every key alike.
proof fn lemma_same_ranks(m1: Map<Seq<char>, NormV>, m2: Map<Seq<char>, NormV>, ks: Seq<Seq<char>>)
    requires
        forall|i: int| 0 <= i < ks.len() ==> m1.contains_key(#[trigger] ks[i]) && same_but_children(m2[ks[i]], m1[ks[i]]),
    ensures
        in_order(m1, ks) == in_order(m2, ks),
{
    assert forall|i: int| 0 <= i < ks.len() implies #[trigger] rank_in(m1, ks[i]) == rank_in(m2, ks[i]) by {
        assert(same_but_children(m2[ks[i]], m1[ks[i]]));
    }
    lemma_in_order_congruent(m1, m2, ks);
}

/// Creating a node keeps every child list in order.
pub proof fn lemma_create_keeps_order(m: Map<Seq<char>, NormV>, p: Seq<Seq<char>>, is_file: bool)
    requires
        linked(m),
        lists_in_order(m),
        valid_path(p),
        !m.contains_key(key_of(p)),
        parent_ok(m, p),
    ensures
        lists_in_order(created_map(m, p, is_file)),
{
    let k = key_of(p);
    let m1 = m.insert(k, leaf_of(p, is_file));
    let r = created_map(m, p, is_file);
    let pk = parent_key_of(p);
    lemma_create_keeps_linked(m, p, is_file);
    assert forall|q: Seq<char>| #[trigger] r.contains_key(q) implies in_order(r, r[q].children_keys) by {
        let ks = r[q].children_keys;
        if q == k {
        } else if p.len() > 1 && q == pk {
            let old = m[pk].children_keys;
            assert forall|i: int| 0 <= i < old.len() implies m.contains_key(#[trigger] old[i]) && same_but_children(m1[old[i]], m[old[i]]) by {
                assert(old.contains(old[i]));
                assert(m.contains_key(old[i]));
            }
            lemma_same_ranks(m, m1, old);
            assert(all_indexed(m1, old));
            lemma_insert_sorted_in_order(m1, old, k);
            lemma_insert_sorted_contents(m1, old, k);
            assert forall|i: int| 0 <= i < ks.len() implies m1.contains_key(#[trigger] ks[i]) && same_but_children(r[ks[i]], m1[ks[i]]) by {
                assert(ks.contains(ks[i]));
                if ks[i] != k {
                    assert(old.contains(ks[i]));
                    assert(m.contains_key(ks[i]));
                }
            }
            lemma_same_ranks(m1, r, ks);
        } else {
            assert(m.contains_key(q));
            assert(ks == m[q].children_keys);
            assert forall|i: int| 0 <= i < ks.len() implies m.contains_key(#[trigger] ks[i]) && same_but_children(r[ks[i]], m[ks[i]]) by {
                assert(ks.contains(ks[i]));
                assert(m.contains_key(ks[i]));
            }
            lemma_same_ranks(m, r, ks);
        }
    }
}

/// Deleting a node keeps every child list in order.
pub proof fn lemma_delete_keeps_order(m: Map<Seq<char>, NormV>, k: Seq<char>)
    requires
        linked(m),
        lists_in_order(m),
        m.contains_key(k),
    ensures
        lists_in_order(deleted_map(m, k)),
{
    let r = deleted_map(m, k);
    lemma_delete_keeps_linked(m, k);
    assert forall|q: Seq<char>| #[trigger] r.contains_key(q) implies in_order(r, r[q].children_keys) by {
        let ks = r[q].children_keys;
        assert(m.contains_key(q));
        assert(in_order(m, m[q].children_keys));
        if ks != m[q].children_keys {
            lemma_in_order_without(m, m[q].children_keys, k);
        }
        assert(in_order(m, ks));
        assert forall|i: int| 0 <= i < ks.len() implies m.contains_key(#[trigger] ks[i]) && same_but_children(r[ks[i]], m[ks[i]]) by {
            assert(ks.contains(ks[i]));
            assert(r.contains_key(ks[i]));
        }
        lemma_same_ranks(m, r, ks);
    }
}

/// Every map that a scan builds keeps its child lists in order.
pub proof fn lemma_scan_order(items: Seq<ScanItem>, ignore: Seq<Seq<char>>)
    ensures
        lists_in_order(scanned_map(items, ignore)),
    decreases items.len(),
{
    if items.len() > 0 {
        let prev = scanned_map(items.drop_last(), ignore);
        lemma_scan_order(items.drop_last(), ignore);
        lemma_scan_linked(items.drop_last(), ignore);
        let it = items.last();
        let r = scan_step(prev, crate::codec::segs_view(it.path@), it.is_dir, ignore);
        if r != prev {
            let p = crate::codec::path_of_key(
                key_of(crate::scan::doc_path_of(crate::codec::segs_view(it.path@), it.is_dir)),
            );
            lemma_create_keeps_order(prev, p, !it.is_dir);
        }
    }
}

/// A key of the moved map stays, with the same ranks, in the re-sorted map and in the
/// renamed map.
proof fn lemma_rename_same_ranks(m: Map<Seq<char>, NormV>, k: Seq<char>, nn: Seq<char>, x: Seq<char>)
    requires
        moved_map(m, k, m[k].path, renamed_path(m, k, nn), nn).contains_key(x),
    ensures
        crate::service::resorted_map(m, k, m[k].path, renamed_path(m, k, nn), nn).contains_key(x),
        same_but_children(
            crate::service::resorted_map(m, k, m[k].path, renamed_path(m, k, nn), nn)[x],
            moved_map(m, k, m[k].path, renamed_path(m, k, nn), nn)[x],
        ),
        renamed_map(m, k, nn).contains_key(x),
        same_but_children(
            renamed_map(m, k, nn)[x],
            crate::service::resorted_map(m, k, m[k].path, renamed_path(m, k, nn), nn)[x],
        ),
        same_but_children(
            renamed_map(m, k, nn)[x],
            moved_map(m, k, m[k].path, renamed_path(m, k, nn), nn)[x],
        ),
{
    reveal(moved_map);
    reveal(resorted_map);
    reveal(renamed_map);
}

/// A node outside the renamed subtree keeps its entry in the moved map.
proof fn lemma_unmoved_entry(m: Map<Seq<char>, NormV>, k: Seq<char>, nn: Seq<char>, c: Seq<char>)
    requires
        rename_ok(m, k, nn),
        m.contains_key(c),
        !under(m, c, m[k].path),
    ensures
        moved_map(m, k, m[k].path, renamed_path(m, k, nn), nn).contains_key(c),
        moved_map(m, k, m[k].path, renamed_path(m, k, nn), nn)[c] == m[c],
{
    reveal(rename_ok);
    reveal(moved_map);
    reveal(resorted_map);
    reveal(renamed_map);
    lemma_moved_lookup(m, k, m[k].path, renamed_path(m, k, nn), nn, c);
}

/// A child of a node outside the renamed subtree lies outside it too, unless it is the
/// renamed node itself.
proof fn lemma_child_outside(m: Map<Seq<char>, NormV>, k: Seq<char>, q: Seq<char>, c: Seq<char>)
    requires
        linked(m),
        m.contains_key(k),
        m.contains_key(q),
        !under(m, q, m[k].path),
        m[q].children_keys.contains(c),
        c != k,
    ensures
        !under(m, c, m[k].path),
{
    let pp = m[k].path;
    lemma_child_facts(m, q, c);
    if under(m, c, pp) {
        let cp = m[c].path;
        if cp.len() > pp.len() {
            lemma_prefix_of_parent(cp, pp);
        } else {
            assert(cp =~= pp);
        }
    }
}

/// A child of a node outside the renamed subtree, other than the renamed node, ranks alike
/// in the old, the re-sorted and the renamed map.
proof fn lemma_outside_child_rank(m: Map<Seq<char>, NormV>, k: Seq<char>, nn: Seq<char>, q: Seq<char>, c: Seq<char>)
    requires
        rename_ok(m, k, nn),
        m.contains_key(q),
        !under(m, q, m[k].path),
        m[q].children_keys.contains(c),
        c != k,
    ensures
        rank_in(m, c) == rank_in(renamed_map(m, k, nn), c),
        rank_in(m, c) == rank_in(crate::service::resorted_map(m, k, m[k].path, renamed_path(m, k, nn), nn), c),
        crate::service::resorted_map(m, k, m[k].path, renamed_path(m, k, nn), nn).contains_key(c),
{
    reveal(rename_ok);
    lemma_child_facts(m, q, c);
    lemma_child_outside(m, k, q, c);
    lemma_unmoved_entry(m, k, nn, c);
    lemma_rename_same_ranks(m, k, nn, c);
}

/// A key of the re-sorted map ranks alike there and in the renamed map.
proof fn lemma_resorted_rank(m: Map<Seq<char>, NormV>, k: Seq<char>, nn: Seq<char>, x: Seq<char>)
    requires
        crate::service::resorted_map(m, k, m[k].path, renamed_path(m, k, nn), nn).contains_key(x),
    ensures
        rank_in(crate::service::resorted_map(m, k, m[k].path, renamed_path(m, k, nn), nn), x)
            == rank_in(renamed_map(m, k, nn), x),
{
    reveal(resorted_map);
    lemma_rename_same_ranks(m, k, nn, x);
}

/// A child list of a node outside the renamed subtree ranks alike in the old and the
/// renamed map, provided it does not hold the renamed node.
#[verifier::rlimit(100)]
proof fn lemma_outside_list_ranks(
    m: Map<Seq<char>, NormV>,
    k: Seq<char>,
    nn: Seq<char>,
    q: Seq<char>,
    ks: Seq<Seq<char>>,
)
    requires
        rename_ok(m, k, nn),
        m.contains_key(q),
        !under(m, q, m[k].path),
        forall|i: int| 0 <= i < ks.len() ==> m[q].children_keys.contains(#[trigger] ks[i]) && ks[i] != k,
    ensures
        in_order(m, ks) == in_order(renamed_map(m, k, nn), ks),
        in_order(m, ks) == in_order(crate::service::resorted_map(m, k, m[k].path, renamed_path(m, k, nn), nn), ks),
        all_indexed(crate::service::resorted_map(m, k, m[k].path, renamed_path(m, k, nn), nn), ks),
{
    let ma = moved_map(m, k, m[k].path, renamed_path(m, k, nn), nn);
    let rs = crate::service::resorted_map(m, k, m[k].path, renamed_path(m, k, nn), nn);
    let r = renamed_map(m, k, nn);
    assert forall|i: int| 0 <= i < ks.len() implies #[trigger] rank_in(m, ks[i]) == rank_in(r, ks[i])
        && rank_in(m, ks[i]) == rank_in(rs, ks[i]) && rs.contains_key(ks[i]) by {
        lemma_outside_child_rank(m, k, nn, q, ks[i]);
    }
    assert forall|i: int| 0 <= i < ks.len() implies rs.contains_key(#[trigger] ks[i]) by {
        lemma_outside_child_rank(m, k, nn, q, ks[i]);
    }
    lemma_in_order_congruent(m, r, ks);
    lemma_in_order_congruent(m, rs, ks);
}

/// What a rename's preconditions give, besides the absence of collisions.
proof fn lemma_rename_ok_facts(m: Map<Seq<char>, NormV>, k: Seq<char>, nn: Seq<char>)
    requires
        rename_ok(m, k, nn),
    ensures
        linked(m),
        m.contains_key(k),
{
    reveal(rename_ok);
}

/// The renamed node's parent: unchanged but for its list, which drops the old key and takes
/// the new one in order.
proof fn lemma_parent_entry(m: Map<Seq<char>, NormV>, k: Seq<char>, nn: Seq<char>)
    requires
        rename_ok(m, k, nn),
        m[k].path.len() > 1,
    ensures
        resorted_map(m, k, m[k].path, renamed_path(m, k, nn), nn).contains_key(parent_key_of(m[k].path)),
        resorted_map(m, k, m[k].path, renamed_path(m, k, nn), nn)[parent_key_of(m[k].path)] == m[parent_key_of(m[k].path)],
        resorted_map(m, k, m[k].path, renamed_path(m, k, nn), nn).contains_key(key_of(renamed_path(m, k, nn))),
        renamed_map(m, k, nn).contains_key(parent_key_of(m[k].path)),
        renamed_map(m, k, nn)[parent_key_of(m[k].path)].children_keys == insert_sorted(
            resorted_map(m, k, m[k].path, renamed_path(m, k, nn), nn),
            without(m[parent_key_of(m[k].path)].children_keys, k),
            key_of(renamed_path(m, k, nn)),
        ),
        !under(m, parent_key_of(m[k].path), m[k].path),
{
    reveal(rename_ok);
    reveal(moved_map);
    reveal(resorted_map);
    reveal(renamed_map);
    let pp = m[k].path;
    let p2 = renamed_path(m, k, nn);
    let pk = parent_key_of(pp);
    lemma_parent_facts(m, k);
    assert(pp.take(pp.len() as int) =~= pp);
    assert(!under(m, pk, pp));
    lemma_moved_lookup(m, k, pp, p2, nn, pk);
    assert(rekey(m, pk, pp, p2) == pk);
    assert(!crate::service::is_moved_key(m, pk, pp, p2)) by {
        if crate::service::is_moved_key(m, pk, pp, p2) {
            let q = choose|q: Seq<char>| m.contains_key(q) && under(m, q, pp) && #[trigger] rekey(m, q, pp, p2) == pk;
            assert(rename_collides(m, pp, p2));
        }
    }
    assert(moved(pp, pp, p2) =~= p2);
    lemma_moved_lookup(m, k, pp, p2, nn, k);
    assert(rekey(m, k, pp, p2) == key_of(p2));
}

/// The renamed node's parent lists its children in order.
#[verifier::rlimit(100)]
proof fn lemma_order_parent(m: Map<Seq<char>, NormV>, k: Seq<char>, nn: Seq<char>)
    requires
        rename_ok(m, k, nn),
        lists_in_order(m),
        m[k].path.len() > 1,
    ensures
        renamed_map(m, k, nn).contains_key(parent_key_of(m[k].path)),
        in_order(renamed_map(m, k, nn), renamed_map(m, k, nn)[parent_key_of(m[k].path)].children_keys),
{
    let pp = m[k].path;
    let p2 = renamed_path(m, k, nn);
    let rs = resorted_map(m, k, pp, p2, nn);
    let r = renamed_map(m, k, nn);
    let pk = parent_key_of(pp);
    let k2 = key_of(p2);
    lemma_rename_ok_facts(m, k, nn);
    lemma_parent_entry(m, k, nn);
    lemma_parent_facts(m, k);
    let old = m[pk].children_keys;
    let w = without(old, k);
    lemma_without(old, k);
    lemma_in_order_without(m, old, k);
    assert forall|i: int| 0 <= i < w.len() implies m[pk].children_keys.contains(#[trigger] w[i]) && w[i] != k by {
        assert(w.contains(w[i]));
    }
    lemma_outside_list_ranks(m, k, nn, pk, w);
    lemma_insert_sorted_in_order(rs, w, k2);
    lemma_insert_sorted_contents(rs, w, k2);
    let ks = insert_sorted(rs, w, k2);
    assert forall|i: int| 0 <= i < ks.len() implies #[trigger] rank_in(rs, ks[i]) == rank_in(r, ks[i]) by {
        assert(ks.contains(ks[i]));
        if ks[i] != k2 {
            assert(w.contains(ks[i]));
            let t = choose|t: int| 0 <= t < w.len() && w[t] == ks[i];
            assert(rs.contains_key(w[t]));
        }
        lemma_resorted_rank(m, k, nn, ks[i]);
    }
    lemma_in_order_congruent(rs, r, ks);
}

/// A moved node lists its children in order.
proof fn lemma_order_moved(m: Map<Seq<char>, NormV>, k: Seq<char>, nn: Seq<char>, q2: Seq<char>)
    requires
        rename_ok(m, k, nn),
        crate::service::is_moved_key(m, q2, m[k].path, renamed_path(m, k, nn)),
        m[k].path.len() > 1 ==> q2 != parent_key_of(m[k].path),
    ensures
        renamed_map(m, k, nn).contains_key(q2),
        in_order(renamed_map(m, k, nn), renamed_map(m, k, nn)[q2].children_keys),
{
    reveal(rename_ok);
    reveal(moved_map);
    reveal(resorted_map);
    reveal(renamed_map);
    let pp = m[k].path;
    let p2 = renamed_path(m, k, nn);
    let ma = moved_map(m, k, pp, p2, nn);
    let rs = crate::service::resorted_map(m, k, pp, p2, nn);
    let r = renamed_map(m, k, nn);
    let q = choose|q: Seq<char>| m.contains_key(q) && under(m, q, pp) && #[trigger] rekey(m, q, pp, p2) == q2;
    lemma_moved_lookup(m, k, pp, p2, nn, q);
    assert(ma.contains_key(q2));
    assert(rs[q2].children_keys == sort_keys(ma, ma[q2].children_keys));
    assert(r[q2] == rs[q2]);
    let cs = ma[q2].children_keys;
    assert(all_indexed(ma, cs)) by {
        assert forall|i: int| 0 <= i < cs.len() implies ma.contains_key(#[trigger] cs[i]) by {
            crate::service::lemma_moved_children_present(m, k, pp, p2, nn, q, i);
        }
    }
    lemma_sort_keys(ma, cs);
    let ks = sort_keys(ma, cs);
    assert forall|i: int| 0 <= i < ks.len() implies #[trigger] rank_in(ma, ks[i]) == rank_in(r, ks[i]) by {
        lemma_rename_same_ranks(m, k, nn, ks[i]);
    }
    lemma_in_order_congruent(ma, r, ks);
}

/// A node neither moved nor the renamed node's parent lists its children in order.
proof fn lemma_order_other(m: Map<Seq<char>, NormV>, k: Seq<char>, nn: Seq<char>, q2: Seq<char>)
    requires
        rename_ok(m, k, nn),
        lists_in_order(m),
        renamed_map(m, k, nn).contains_key(q2),
        !crate::service::is_moved_key(m, q2, m[k].path, renamed_path(m, k, nn)),
        m[k].path.len() > 1 ==> q2 != parent_key_of(m[k].path),
    ensures
        in_order(renamed_map(m, k, nn), renamed_map(m, k, nn)[q2].children_keys),
{
    let pp = m[k].path;
    let r = renamed_map(m, k, nn);
    lemma_rename_ok_facts(m, k, nn);
    lemma_other_entry(m, k, nn, q2);
    let ks = m[q2].children_keys;
    assert forall|i: int| 0 <= i < ks.len() implies m[q2].children_keys.contains(#[trigger] ks[i]) && ks[i] != k by {
        assert(ks.contains(ks[i]));
        lemma_child_not_renamed(m, k, q2, ks[i]);
    }
    lemma_outside_list_ranks(m, k, nn, q2, ks);
}

/// A node neither moved nor the renamed node's parent keeps its child list.
proof fn lemma_other_entry(m: Map<Seq<char>, NormV>, k: Seq<char>, nn: Seq<char>, q2: Seq<char>)
    requires
        rename_ok(m, k, nn),
        renamed_map(m, k, nn).contains_key(q2),
        !crate::service::is_moved_key(m, q2, m[k].path, renamed_path(m, k, nn)),
        m[k].path.len() > 1 ==> q2 != parent_key_of(m[k].path),
    ensures
        m.contains_key(q2),
        !under(m, q2, m[k].path),
        renamed_map(m, k, nn)[q2].children_keys == m[q2].children_keys,
        lists_in_order(m) ==> in_order(m, m[q2].children_keys),
{
    reveal(rename_ok);
    reveal(moved_map);
    reveal(resorted_map);
    reveal(renamed_map);
    let pp = m[k].path;
    let p2 = renamed_path(m, k, nn);
    let q = choose|q: Seq<char>| m.contains_key(q) && #[trigger] rekey(m, q, pp, p2) == q2;
    if under(m, q, pp) {
        assert(crate::service::is_moved_key(m, q2, pp, p2));
    }
    lemma_moved_lookup(m, k, pp, p2, nn, q);
}

/// A child of a node other than the renamed node's parent is not the renamed node.
proof fn lemma_child_not_renamed(m: Map<Seq<char>, NormV>, k: Seq<char>, q: Seq<char>, c: Seq<char>)
    requires
        linked(m),
        m.contains_key(k),
        m.contains_key(q),
        m[q].children_keys.contains(c),
        m[k].path.len() > 1 ==> q != parent_key_of(m[k].path),
    ensures
        c != k,
{
    lemma_child_facts(m, q, c);
}

/// Renaming a node keeps every child list in order.
pub proof fn lemma_rename_keeps_order(m: Map<Seq<char>, NormV>, k: Seq<char>, nn: Seq<char>)
    requires
        rename_ok(m, k, nn),
        lists_in_order(m),
    ensures
        lists_in_order(renamed_map(m, k, nn)),
{
    let pp = m[k].path;
    let p2 = renamed_path(m, k, nn);
    let r = renamed_map(m, k, nn);
    assert forall|q2: Seq<char>| #[trigger] r.contains_key(q2) implies in_order(r, r[q2].children_keys) by {
        if pp.len() > 1 && q2 == parent_key_of(pp) {
            lemma_order_parent(m, k, nn);
        } else if crate::service::is_moved_key(m, q2, pp, p2) {
            lemma_order_moved(m, k, nn, q2);
        } else {
            lemma_order_other(m, k, nn, q2);
        }
    }
}

} // verus!
