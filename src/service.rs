//! The document index: the flat map of nodes, kept consistent across every change.
use vstd::prelude::*;
use vstd::string::*;
use crate::codec::{
    denormalize_path, has_no_slash, join_with, key_of, normalize_path, path_of_key, push_char,
    segs_view, split_slash,
};
use crate::docmap::{empty_docs, has_prefix, starts_with_path, NormalizedDocMap};
use crate::model::{copy_strings, Doc, NormV, NormalizedDoc};
use crate::order::{precedes, rank_of, Rank};
use crate::scan::{accepted, doc_path_of, scanned_doc_path, ScanItem};
use crate::settings::Settings;
use crate::laws::{
    lemma_create_keeps_linked, lemma_create_keeps_order, lemma_delete_keeps_linked,
    lemma_delete_keeps_order, lemma_empty_linked, lemma_rename_keeps_linked,
    lemma_rename_keeps_order, lists_in_order, linked,
    rename_ok,
};

verus! {

broadcast use vstd::seq::group_seq_axioms;

/// Why the index refused a change.
#[derive(PartialEq, Eq, Structural, Debug, Clone, Copy)]
pub enum DocError {
    /// The key decodes to a path with an empty segment.
    InvalidPath,
    /// A node is already indexed under the key.
    AlreadyExists,
    /// The parent directory of the key is not indexed.
    ParentNotFound,
    /// No node is indexed under the key.
    NotFound,
    /// The destination's parent directory is not indexed.
    InvalidDestination,
}

/// The id of a node: its name, `-`, then its path joined with `-`.
pub open spec fn id_of(name: Seq<char>, path: Seq<Seq<char>>) -> Seq<char> {
    name + seq!['-'] + join_with(path, '-')
}

/// A path the index can hold: at least one segment, none empty, none holding `/`.
pub open spec fn valid_path(p: Seq<Seq<char>>) -> bool {
    &&& p.len() >= 1
    &&& forall|i: int| 0 <= i < p.len() ==> (#[trigger] p[i]).len() > 0 && has_no_slash(p[i])
}

/// The rank of the node under `k`: files by id, directories by name.
pub open spec fn rank_in(m: Map<Seq<char>, NormV>, k: Seq<char>) -> (bool, Seq<u8>) {
    rank_of(m[k].is_file, if m[k].is_file { m[k].id } else { m[k].name })
}

/// The node under `k` sorts strictly before the indexed node under `c`.
pub open spec fn goes_before(m: Map<Seq<char>, NormV>, k: Seq<char>, c: Seq<char>) -> bool {
    m.contains_key(c) && precedes(rank_in(m, k), rank_in(m, c))
}

/// `k` inserted into the sibling keys `ks` before the first sibling it sorts before.
pub open spec fn insert_sorted(m: Map<Seq<char>, NormV>, ks: Seq<Seq<char>>, k: Seq<char>) -> Seq<
    Seq<char>,
>
    decreases ks.len(),
{
    if ks.len() == 0 {
        seq![k]
    } else if goes_before(m, k, ks[0]) {
        seq![k] + ks
    } else {
        seq![ks[0]] + insert_sorted(m, ks.drop_first(), k)
    }
}

/// The key of the parent of a path with at least two segments.
pub open spec fn parent_key_of(p: Seq<Seq<char>>) -> Seq<char> {
    key_of(p.drop_last())
}

/// A node the index can take under `p`: the parent, for a nested path, is an indexed directory.
pub open spec fn parent_ok(m: Map<Seq<char>, NormV>, p: Seq<Seq<char>>) -> bool {
    p.len() == 1 || (m.contains_key(parent_key_of(p)) && !m[parent_key_of(p)].is_file)
}

/// A new node without children under `p`.
pub open spec fn leaf_of(p: Seq<Seq<char>>, is_file: bool) -> NormV {
    NormV {
        name: p.last(),
        id: id_of(p.last(), p),
        is_file,
        children_keys: seq![],
        path: p,
        headings: seq![],
        keywords: seq![],
        parent_key: if p.len() > 1 {
            Some(parent_key_of(p))
        } else {
            None
        },
    }
}

/// The map once a new node is added under `p` and listed, in order, among its parent's children.
pub open spec fn created_map(m: Map<Seq<char>, NormV>, p: Seq<Seq<char>>, is_file: bool) -> Map<
    Seq<char>,
    NormV,
> {
    let k = key_of(p);
    let m1 = m.insert(k, leaf_of(p, is_file));
    if p.len() == 1 {
        m1
    } else {
        let pk = parent_key_of(p);
        m1.insert(pk, NormV { children_keys: insert_sorted(m1, m1[pk].children_keys, k), ..m1[pk] })
    }
}

/// Inserting a key is inserting it before the first sibling it sorts before.
pub proof fn lemma_insert_sorted_at(
    m: Map<Seq<char>, NormV>,
    ks: Seq<Seq<char>>,
    k: Seq<char>,
    j: int,
)
    requires
        0 <= j <= ks.len(),
        forall|i: int| 0 <= i < j ==> !goes_before(m, k, #[trigger] ks[i]),
        j == ks.len() || goes_before(m, k, ks[j]),
    ensures
        insert_sorted(m, ks, k) == ks.insert(j, k),
    decreases ks.len(),
{
    if ks.len() == 0 {
        assert(ks.insert(j, k) =~= seq![k]);
    } else if j == 0 {
        assert(ks.insert(0, k) =~= seq![k] + ks);
    } else {
        assert(!goes_before(m, k, ks[0]));
        let rest = ks.drop_first();
        assert forall|i: int| 0 <= i < j - 1 implies !goes_before(m, k, #[trigger] rest[i]) by {
            assert(rest[i] == ks[i + 1]);
        }
        lemma_insert_sorted_at(m, rest, k, j - 1);
        assert(seq![ks[0]] + rest.insert(j - 1, k) =~= ks.insert(j, k));
    }
}

/// The id of a node with this name and path.
pub fn make_id(name: &String, path: &Vec<String>) -> (r: String)
    ensures
        r@ == id_of(name@, segs_view(path@)),
{
    let mut out = name.clone();
    push_char(&mut out, '-');
    let mut i: usize = 0;
    while i < path.len()
        invariant
            0 <= i <= path@.len(),
            out@ == name@ + seq!['-'] + join_with(segs_view(path@.take(i as int)), '-'),
        decreases path@.len() - i,
    {
        let ghost prev = segs_view(path@.take(i as int));
        let ghost next = segs_view(path@.take(i as int + 1));
        assert(next.drop_last() =~= prev);
        if i > 0 {
            push_char(&mut out, '-');
        }
        out.append(path[i].as_str());
        proof {
            if i == 0 {
                assert(next =~= seq![path@[0]@]);
            }
        }
        assert(out@ =~= name@ + seq!['-'] + join_with(next, '-'));
        i = i + 1;
    }
    assert(path@.take(path@.len() as int) =~= path@);
    out
}

/// Inserts `k` into the sorted sibling keys `keys`, before the first sibling it sorts before.
fn insert_child_key(map: &NormalizedDocMap, keys: &mut Vec<String>, k: String, rk: &Rank)
    requires
        map.wf(),
        rk.spec_rank() == rank_in(map.view(), k@),
    ensures
        segs_view(final(keys)@) == insert_sorted(map.view(), segs_view(old(keys)@), k@),
{
    let ghost m = map.view();
    let ghost ks = segs_view(keys@);
    let mut j: usize = 0;
    let mut found = false;
    while j < keys.len() && !found
        invariant
            map.wf(),
            m == map.view(),
            rk.spec_rank() == rank_in(m, k@),
            ks == segs_view(keys@),
            0 <= j <= keys@.len(),
            forall|i: int| 0 <= i < j ==> !goes_before(m, k@, #[trigger] ks[i]),
            found ==> j < keys@.len() && goes_before(m, k@, ks[j as int]),
        decreases keys@.len() - j + (if found { 0int } else { 1int }),
    {
        assert(ks[j as int] == keys@[j as int]@);
        match map.get(keys[j].as_str()) {
            Some(c) => {
                assert(c@ == m[ks[j as int]]);
                let rc = if c.is_file {
                    Rank::new(c.is_file, c.id.as_str())
                } else {
                    Rank::new(c.is_file, c.name.as_str())
                };
                assert(rc.spec_rank() == rank_in(m, ks[j as int]));
                if rk.precedes(&rc) {
                    found = true;
                } else {
                    j = j + 1;
                }
            },
            None => {
                j = j + 1;
            },
        }
    }
    proof {
        lemma_insert_sorted_at(m, ks, k@, j as int);
    }
    keys.insert(j, k);
    assert(segs_view(keys@) =~= ks.insert(j as int, k@));
}

/// The keys `ks` without `k`.
pub open spec fn without(ks: Seq<Seq<char>>, k: Seq<char>) -> Seq<Seq<char>>
    decreases ks.len(),
{
    if ks.len() == 0 {
        seq![]
    } else if ks.last() == k {
        without(ks.drop_last(), k)
    } else {
        without(ks.drop_last(), k).push(ks.last())
    }
}

/// The map once the node under `k`, and every node whose path extends its path, are gone, and
/// `k` is no longer listed among its parent's children.
pub open spec fn deleted_map(m: Map<Seq<char>, NormV>, k: Seq<char>) -> Map<Seq<char>, NormV> {
    let p = m[k].path;
    let m1 = m.restrict(m.dom().filter(|q: Seq<char>| !has_prefix(m[q].path, p)));
    match m[k].parent_key {
        Some(pk) => if m1.contains_key(pk) {
            m1.insert(pk, NormV { children_keys: without(m1[pk].children_keys, k), ..m1[pk] })
        } else {
            m1
        },
        None => m1,
    }
}

/// The keys without `k`.
fn remove_key(keys: &Vec<String>, k: &String) -> (r: Vec<String>)
    ensures
        segs_view(r@) == without(segs_view(keys@), k@),
{
    let mut r: Vec<String> = Vec::new();
    let mut i: usize = 0;
    while i < keys.len()
        invariant
            0 <= i <= keys@.len(),
            segs_view(r@) == without(segs_view(keys@.take(i as int)), k@),
        decreases keys@.len() - i,
    {
        let ghost next = segs_view(keys@.take(i as int + 1));
        assert(next.drop_last() =~= segs_view(keys@.take(i as int)));
        assert(next.last() == keys@[i as int]@);
        if keys[i] != *k {
            r.push(keys[i].clone());
            assert(segs_view(r@) =~= without(next, k@));
        }
        i = i + 1;
    }
    assert(keys@.take(keys@.len() as int) =~= keys@);
    r
}

/// A path under `p` moved under `p2`: `p2` followed by what follows `p`.
pub open spec fn moved(q: Seq<Seq<char>>, p: Seq<Seq<char>>, p2: Seq<Seq<char>>) -> Seq<Seq<char>> {
    p2 + q.skip(p.len() as int)
}

/// The node under `q` lies at or below `p`.
pub open spec fn under(m: Map<Seq<char>, NormV>, q: Seq<char>, p: Seq<Seq<char>>) -> bool {
    m.contains_key(q) && has_prefix(m[q].path, p)
}

/// The key a node gets when the nodes below `p` move below `p2`; other keys stay.
pub open spec fn rekey(m: Map<Seq<char>, NormV>, q: Seq<char>, p: Seq<Seq<char>>, p2: Seq<Seq<char>>) -> Seq<char> {
    if under(m, q, p) {
        key_of(moved(m[q].path, p, p2))
    } else {
        q
    }
}

/// The node under `q` once the node under `k` (at `p`) is renamed to `new_name` (at `p2`).
pub open spec fn renamed_entry(
    m: Map<Seq<char>, NormV>,
    q: Seq<char>,
    k: Seq<char>,
    p: Seq<Seq<char>>,
    p2: Seq<Seq<char>>,
    new_name: Seq<char>,
) -> NormV {
    let e = m[q];
    let path = moved(e.path, p, p2);
    let name = if q == k { new_name } else { e.name };
    NormV {
        name,
        id: id_of(name, path),
        path,
        parent_key: if q == k { e.parent_key } else { Some(key_of(path.drop_last())) },
        children_keys: e.children_keys.map_values(|c: Seq<char>| rekey(m, c, p, p2)),
        ..e
    }
}

/// Two nodes would share a key once the nodes below `p` move below `p2`.
pub open spec fn rename_collides(m: Map<Seq<char>, NormV>, p: Seq<Seq<char>>, p2: Seq<Seq<char>>) -> bool {
    exists|q1: Seq<char>, q2: Seq<char>|
        #![trigger rekey(m, q1, p, p2), rekey(m, q2, p, p2)]
        m.contains_key(q1) && m.contains_key(q2) && q1 != q2 && rekey(m, q1, p, p2) == rekey(m, q2, p, p2)
}

/// The renamed nodes with their new keys; the nodes elsewhere as they were.
#[verifier::opaque]
pub open spec fn moved_map(
    m: Map<Seq<char>, NormV>,
    k: Seq<char>,
    p: Seq<Seq<char>>,
    p2: Seq<Seq<char>>,
    new_name: Seq<char>,
) -> Map<Seq<char>, NormV> {
    Map::new(
        |q2: Seq<char>| exists|q: Seq<char>| m.contains_key(q) && #[trigger] rekey(m, q, p, p2) == q2,
        |q2: Seq<char>| {
            let q = choose|q: Seq<char>| m.contains_key(q) && #[trigger] rekey(m, q, p, p2) == q2;
            if under(m, q, p) {
                renamed_entry(m, q, k, p, p2, new_name)
            } else {
                m[q]
            }
        },
    )
}

/// The path of the node under `k` with its last segment replaced by `new_name`.
pub open spec fn renamed_path(m: Map<Seq<char>, NormV>, k: Seq<char>, new_name: Seq<char>) -> Seq<Seq<char>> {
    m[k].path.update(m[k].path.len() - 1, new_name)
}

/// The key `q2` is the new key of a node at or below `p`.
pub open spec fn is_moved_key(m: Map<Seq<char>, NormV>, q2: Seq<char>, p: Seq<Seq<char>>, p2: Seq<Seq<char>>) -> bool {
    exists|q: Seq<char>| m.contains_key(q) && under(m, q, p) && #[trigger] rekey(m, q, p, p2) == q2
}

/// The moved map with the child list of each moved node put back in order: file ids carry
/// the path, so a move can change how files rank.
#[verifier::opaque]
pub open spec fn resorted_map(
    m: Map<Seq<char>, NormV>,
    k: Seq<char>,
    p: Seq<Seq<char>>,
    p2: Seq<Seq<char>>,
    new_name: Seq<char>,
) -> Map<Seq<char>, NormV> {
    let ma = moved_map(m, k, p, p2, new_name);
    Map::new(
        |q2: Seq<char>| ma.contains_key(q2),
        |q2: Seq<char>| if is_moved_key(m, q2, p, p2) {
            NormV { children_keys: sort_keys(ma, ma[q2].children_keys), ..ma[q2] }
        } else {
            ma[q2]
        },
    )
}

/// The map once the node under `k` is renamed to `new_name`: it and every node below it are
/// re-keyed under the new path with their child lists in order, and the parent lists the new
/// key in order.
#[verifier::opaque]
pub open spec fn renamed_map(m: Map<Seq<char>, NormV>, k: Seq<char>, new_name: Seq<char>) -> Map<
    Seq<char>,
    NormV,
> {
    let p = m[k].path;
    let p2 = renamed_path(m, k, new_name);
    let rs = resorted_map(m, k, p, p2, new_name);
    match m[k].parent_key {
        Some(pk) => if rs.contains_key(pk) && !under(m, pk, p) {
            rs.insert(
                pk,
                NormV {
                    children_keys: insert_sorted(rs, without(rs[pk].children_keys, k), key_of(p2)),
                    ..rs[pk]
                },
            )
        } else {
            rs
        },
        None => rs,
    }
}

/// Two maps that hold the same keys, with the same ranks, sort keys alike.
pub proof fn lemma_sort_keys_congruent(m1: Map<Seq<char>, NormV>, m2: Map<Seq<char>, NormV>, ks: Seq<Seq<char>>)
    requires
        forall|x: Seq<char>| #[trigger] m1.contains_key(x) == m2.contains_key(x),
        forall|x: Seq<char>| m1.contains_key(x) ==> #[trigger] rank_in(m1, x) == rank_in(m2, x),
        forall|i: int| 0 <= i < ks.len() ==> m1.contains_key(#[trigger] ks[i]),
    ensures
        sort_keys(m1, ks) == sort_keys(m2, ks),
    decreases ks.len(),
{
    if ks.len() > 0 {
        let init = ks.drop_last();
        assert forall|i: int| 0 <= i < init.len() implies m1.contains_key(#[trigger] init[i]) by {
            assert(init[i] == ks[i]);
        }
        lemma_sort_keys_congruent(m1, m2, init);
        lemma_insert_sorted_congruent(m1, m2, sort_keys(m1, init), ks.last());
    }
}

/// Two maps that hold the same keys, with the same ranks, insert keys alike.
pub proof fn lemma_insert_sorted_congruent(
    m1: Map<Seq<char>, NormV>,
    m2: Map<Seq<char>, NormV>,
    ks: Seq<Seq<char>>,
    k: Seq<char>,
)
    requires
        forall|x: Seq<char>| #[trigger] m1.contains_key(x) == m2.contains_key(x),
        forall|x: Seq<char>| m1.contains_key(x) ==> #[trigger] rank_in(m1, x) == rank_in(m2, x),
        m1.contains_key(k),
    ensures
        insert_sorted(m1, ks, k) == insert_sorted(m2, ks, k),
    decreases ks.len(),
{
    if ks.len() > 0 {
        lemma_insert_sorted_congruent(m1, m2, ks.drop_first(), k);
        assert(goes_before(m1, k, ks[0]) == goes_before(m2, k, ks[0])) by {
            if m1.contains_key(ks[0]) {
                assert(rank_in(m1, ks[0]) == rank_in(m2, ks[0]));
            }
        }
    }
}

/// The keys `keys`, all indexed, sorted.
fn sort_children(map: &NormalizedDocMap, keys: &Vec<String>) -> (r: Vec<String>)
    requires
        map.wf(),
        forall|i: int| 0 <= i < keys@.len() ==> map.view().contains_key(#[trigger] keys@[i]@),
    ensures
        segs_view(r@) == sort_keys(map.view(), segs_view(keys@)),
{
    let ghost m = map.view();
    let mut out: Vec<String> = Vec::new();
    let mut i: usize = 0;
    while i < keys.len()
        invariant
            map.wf(),
            m == map.view(),
            forall|j: int| 0 <= j < keys@.len() ==> m.contains_key(#[trigger] keys@[j]@),
            0 <= i <= keys@.len(),
            segs_view(out@) == sort_keys(m, segs_view(keys@.take(i as int))),
        decreases keys@.len() - i,
    {
        let ghost next = segs_view(keys@.take(i as int + 1));
        assert(next.drop_last() =~= segs_view(keys@.take(i as int)));
        assert(next.last() == keys@[i as int]@);
        let c = &keys[i];
        assert(m.contains_key(keys@[i as int]@));
        match map.get(c.as_str()) {
            Some(e) => {
                let rk = if e.is_file {
                    Rank::new(e.is_file, e.id.as_str())
                } else {
                    Rank::new(e.is_file, e.name.as_str())
                };
                insert_child_key(map, &mut out, c.clone(), &rk);
            },
            None => {},
        }
        i = i + 1;
    }
    assert(keys@.take(keys@.len() as int) =~= keys@);
    out
}

/// `p2` followed by the segments of `q` from position `plen` on.
fn moved_path(q: &Vec<String>, plen: usize, p2: &Vec<String>) -> (r: Vec<String>)
    requires
        plen <= q@.len(),
    ensures
        segs_view(r@) == segs_view(p2@) + segs_view(q@).skip(plen as int),
{
    let mut r = copy_strings(p2);
    let mut i: usize = plen;
    while i < q.len()
        invariant
            plen <= i <= q@.len(),
            segs_view(r@) == segs_view(p2@) + segs_view(q@).subrange(plen as int, i as int),
        decreases q@.len() - i,
    {
        let c = q[i].clone();
        let ghost before = r@;
        r.push(c);
        assert(segs_view(r@) =~= segs_view(before).push(q@[i as int]@));
        assert(segs_view(r@) =~= segs_view(p2@) + segs_view(q@).subrange(plen as int, i as int + 1));
        i = i + 1;
    }
    assert(segs_view(q@).subrange(plen as int, q@.len() as int) =~= segs_view(q@).skip(plen as int));
    r
}

/// Whether a text is a usable name: non-empty, without `/`.
fn is_valid_name(name: &str) -> (r: bool)
    ensures
        r == (name@.len() > 0 && has_no_slash(name@)),
{
    let n = name.unicode_len();
    if n == 0 {
        return false;
    }
    let mut i: usize = 0;
    while i < n
        invariant
            n == name@.len(),
            0 <= i <= n,
            forall|j: int| 0 <= j < i ==> #[trigger] name@[j] != '/',
        decreases n - i,
    {
        if name.get_char(i) == '/' {
            return false;
        }
        i = i + 1;
    }
    true
}

/// The key that the node under `c` gets once the nodes below `p` move below `p2`.
fn rekey_one(map: &NormalizedDocMap, c: &String, p: &Vec<String>, p2: &Vec<String>) -> (r: String)
    requires
        map.wf(),
    ensures
        r@ == rekey(map.view(), c@, segs_view(p@), segs_view(p2@)),
{
    match map.get(c.as_str()) {
        Some(e) => {
            if starts_with_path(&e.path, p) {
                let mp = moved_path(&e.path, p.len(), p2);
                normalize_path(&mp)
            } else {
                c.clone()
            }
        },
        None => c.clone(),
    }
}

/// The keys that the nodes under `keys` get once the nodes below `p` move below `p2`.
fn rekey_all(map: &NormalizedDocMap, keys: &Vec<String>, p: &Vec<String>, p2: &Vec<String>) -> (r:
    Vec<String>)
    requires
        map.wf(),
    ensures
        segs_view(r@) == segs_view(keys@).map_values(
            |c: Seq<char>| rekey(map.view(), c, segs_view(p@), segs_view(p2@)),
        ),
{
    let ghost f = |c: Seq<char>| rekey(map.view(), c, segs_view(p@), segs_view(p2@));
    let mut r: Vec<String> = Vec::new();
    let mut i: usize = 0;
    while i < keys.len()
        invariant
            map.wf(),
            f == (|c: Seq<char>| rekey(map.view(), c, segs_view(p@), segs_view(p2@))),
            0 <= i <= keys@.len(),
            segs_view(r@) == segs_view(keys@.take(i as int)).map_values(f),
        decreases keys@.len() - i,
    {
        let c = rekey_one(map, &keys[i], p, p2);
        let ghost before = r@;
        r.push(c);
        assert(segs_view(r@) =~= segs_view(before).push(c@));
        assert(segs_view(r@) =~= segs_view(keys@.take(i as int + 1)).map_values(f));
        i = i + 1;
    }
    assert(keys@.take(keys@.len() as int) =~= keys@);
    r
}

/// The node under `q` once the node under `k` is renamed to `new_name`.
fn rename_entry(
    map: &NormalizedDocMap,
    e: &NormalizedDoc,
    q: &String,
    k: &String,
    p: &Vec<String>,
    p2: &Vec<String>,
    new_name: &String,
) -> (r: NormalizedDoc)
    requires
        map.wf(),
        map.view().contains_key(q@),
        e@ == map.view()[q@],
        under(map.view(), q@, segs_view(p@)),
        p2@.len() >= 1,
    ensures
        r@ == renamed_entry(map.view(), q@, k@, segs_view(p@), segs_view(p2@), new_name@),
{
    let path = moved_path(&e.path, p.len(), p2);
    let name = if *q == *k {
        new_name.clone()
    } else {
        e.name.clone()
    };
    let id = make_id(&name, &path);
    let parent_key = if *q == *k {
        match &e.parent_key {
            Some(pk) => Some(pk.clone()),
            None => None,
        }
    } else {
        let mut up = copy_strings(&path);
        up.pop();
        assert(segs_view(up@) =~= segs_view(path@).drop_last());
        Some(normalize_path(&up))
    };
    let r = NormalizedDoc {
        name,
        id,
        is_file: e.is_file,
        children_keys: rekey_all(map, &e.children_keys, p, p2),
        path,
        headings: copy_strings(&e.headings),
        keywords: copy_strings(&e.keywords),
        parent_key,
    };
    assert(r@ =~= renamed_entry(map.view(), q@, k@, segs_view(p@), segs_view(p2@), new_name@));
    r
}

/// What the node under `q` becomes once the node under `k` is renamed.
pub open spec fn moved_value(
    m: Map<Seq<char>, NormV>,
    q: Seq<char>,
    k: Seq<char>,
    p: Seq<Seq<char>>,
    p2: Seq<Seq<char>>,
    new_name: Seq<char>,
) -> NormV {
    if under(m, q, p) {
        renamed_entry(m, q, k, p, p2, new_name)
    } else {
        m[q]
    }
}

/// The keys `ks` inserted one after the other, each before the first it sorts before.
pub open spec fn sort_keys(m: Map<Seq<char>, NormV>, ks: Seq<Seq<char>>) -> Seq<Seq<char>>
    decreases ks.len(),
{
    if ks.len() == 0 {
        seq![]
    } else {
        insert_sorted(m, sort_keys(m, ks.drop_last()), ks.last())
    }
}

/// A node at the root level: indexed, without a parent.
pub open spec fn is_root(m: Map<Seq<char>, NormV>, k: Seq<char>) -> bool {
    m.contains_key(k) && m[k].parent_key is None
}

/// `ks` lists each root-level key once, and nothing else.
pub open spec fn lists_roots(m: Map<Seq<char>, NormV>, ks: Seq<Seq<char>>) -> bool {
    &&& ks.no_duplicates()
    &&& forall|k: Seq<char>| #[trigger] ks.contains(k) <==> is_root(m, k)
}

/// The keys among `ks` that the map holds, in order.
pub open spec fn present_keys(m: Map<Seq<char>, NormV>, ks: Seq<Seq<char>>) -> Seq<Seq<char>>
    decreases ks.len(),
{
    if ks.len() == 0 {
        seq![]
    } else if m.contains_key(ks.last()) {
        present_keys(m, ks.drop_last()).push(ks.last())
    } else {
        present_keys(m, ks.drop_last())
    }
}

/// `d` is the tree node built from the map entry under `k`, its children followed to `depth`
/// levels in the order of the entry's child keys.
pub open spec fn doc_of(d: Doc, m: Map<Seq<char>, NormV>, k: Seq<char>, depth: nat) -> bool
    decreases depth,
{
    let e = m[k];
    &&& m.contains_key(k)
    &&& d.name@ == e.name
    &&& d.id@ == e.id
    &&& d.is_file == e.is_file
    &&& segs_view(d.path@) == e.path
    &&& segs_view(d.headings@) == e.headings
    &&& segs_view(d.keywords@) == e.keywords
    &&& if depth == 0 {
        d.children@.len() == 0
    } else {
        let cs = present_keys(m, e.children_keys);
        &&& d.children@.len() == cs.len()
        &&& forall|i: int| 0 <= i < cs.len() ==> doc_of(#[trigger] d.children@[i], m, cs[i], (depth - 1) as nat)
    }
}

/// Each of `ds` is the tree node built from the entry under the key at the same place in `ks`.
pub open spec fn docs_of(ds: Seq<Doc>, m: Map<Seq<char>, NormV>, ks: Seq<Seq<char>>, depth: nat) -> bool {
    &&& ds.len() == ks.len()
    &&& forall|i: int| 0 <= i < ks.len() ==> doc_of(#[trigger] ds[i], m, ks[i], depth)
}

/// The map once a scanned entry is taken in: a kept entry is added as `created_map` adds it,
/// where its parent is indexed and its key is new; any other entry changes nothing.
pub open spec fn scan_step(
    m: Map<Seq<char>, NormV>,
    path: Seq<Seq<char>>,
    is_dir: bool,
    ignore: Seq<Seq<char>>,
) -> Map<Seq<char>, NormV> {
    if !accepted(path, is_dir, ignore) {
        m
    } else {
        let p = path_of_key(key_of(doc_path_of(path, is_dir)));
        if valid_path(p) && !m.contains_key(key_of(p)) && parent_ok(m, p) {
            created_map(m, p, !is_dir)
        } else {
            m
        }
    }
}

/// The map built from scanned entries taken in one after the other.
pub open spec fn scanned_map(items: Seq<ScanItem>, ignore: Seq<Seq<char>>) -> Map<Seq<char>, NormV>
    decreases items.len(),
{
    if items.len() == 0 {
        Map::empty()
    } else {
        scan_step(
            scanned_map(items.drop_last(), ignore),
            segs_view(items.last().path@),
            items.last().is_dir,
            ignore,
        )
    }
}

/// The filesystem names, from the document root, of the node under a key: the decoded path,
/// its last segment replaced by `name` when one is given, and `.md` added for a file.
pub open spec fn fs_segments(key: Seq<char>, is_file: bool, name: Option<Seq<char>>) -> Seq<Seq<char>> {
    let p = path_of_key(key);
    let p1 = match name {
        Some(n) => p.update(p.len() - 1, n),
        None => p,
    };
    if is_file {
        p1.update(p1.len() - 1, p1.last() + seq!['.', 'm', 'd'])
    } else {
        p1
    }
}

/// The key of the parent folder of a path; the empty key for the root.
pub open spec fn parent_folder_key(p: Seq<Seq<char>>) -> Seq<char> {
    if p.len() <= 1 {
        seq![]
    } else {
        key_of(p.drop_last())
    }
}

/// The map with the child lists of the nodes under `ks` sorted.
pub open spec fn resort_keys(m: Map<Seq<char>, NormV>, ks: Seq<Seq<char>>) -> Map<Seq<char>, NormV> {
    Map::new(
        |q: Seq<char>| m.contains_key(q),
        |q: Seq<char>| if ks.contains(q) {
            NormV { children_keys: sort_keys(m, m[q].children_keys), ..m[q] }
        } else {
            m[q]
        },
    )
}

/// Sorts the child lists of the nodes under `keys`.
fn resort_children(nm: &mut NormalizedDocMap, keys: &Vec<String>)
    requires
        old(nm).wf(),
        segs_view(keys@).no_duplicates(),
        forall|i: int| 0 <= i < keys@.len() ==> old(nm).view().contains_key(#[trigger] segs_view(keys@)[i]) && (forall|j: int|
            0 <= j < old(nm).view()[segs_view(keys@)[i]].children_keys.len() ==> old(nm).view().contains_key(#[trigger] old(nm).view()[segs_view(keys@)[i]].children_keys[j])),
    ensures
        final(nm).wf(),
        final(nm).view() == resort_keys(old(nm).view(), segs_view(keys@)),
{
    let ghost m0 = nm.view();
    let ghost ks = segs_view(keys@);
    let mut t: usize = 0;
    assert(resort_keys(m0, ks.take(0)) =~= m0);
    while t < keys.len()
        invariant
            nm.wf(),
            m0 == old(nm).view(),
            ks == segs_view(keys@),
            ks.no_duplicates(),
            forall|i: int| 0 <= i < keys@.len() ==> m0.contains_key(#[trigger] ks[i]) && (forall|j: int|
                0 <= j < m0[ks[i]].children_keys.len() ==> m0.contains_key(#[trigger] m0[ks[i]].children_keys[j])),
            0 <= t <= keys@.len(),
            nm.view() == resort_keys(m0, ks.take(t as int)),
        decreases keys@.len() - t,
    {
        let q2 = &keys[t];
        assert(ks[t as int] == q2@);
        let ghost cur = nm.view();
        let ghost pre = ks.take(t as int);
        let ghost post = ks.take(t as int + 1);
        assert(m0.contains_key(ks[t as int]));
        proof {
            assert(!pre.contains(q2@)) by {
                if pre.contains(q2@) {
                    let u = choose|u: int| 0 <= u < pre.len() && #[trigger] pre[u] == q2@;
                    assert(ks[u] == ks[t as int]);
                }
            }
        }
        let e = match nm.get(q2.as_str()) {
            Some(e) => e.duplicate(),
            None => {
                return;
            },
        };
        assert(e@ == m0[q2@]);
        proof {
            assert forall|x: Seq<char>| #[trigger] cur.contains_key(x) == m0.contains_key(x) by {}
            assert forall|x: Seq<char>| cur.contains_key(x) implies #[trigger] rank_in(cur, x) == rank_in(m0, x) by {}
            assert forall|j: int| 0 <= j < e@.children_keys.len() implies cur.contains_key(#[trigger] e@.children_keys[j]) by {
                assert(m0.contains_key(m0[ks[t as int]].children_keys[j]));
            }
            lemma_sort_keys_congruent(cur, m0, e@.children_keys);
            assert forall|i: int| 0 <= i < e.children_keys@.len() implies nm.view().contains_key(#[trigger] e.children_keys@[i]@) by {
                assert(e@.children_keys[i] == e.children_keys@[i]@);
            }
        }
        let sorted = sort_children(nm, &e.children_keys);
        let mut e2 = e.duplicate();
        e2.children_keys = sorted;
        proof {
            nm.lemma_key_of_entry(q2@);
        }
        nm.replace(q2.as_str(), e2);
        proof {
            assert(post =~= pre.push(q2@));
            assert forall|x: Seq<char>| #[trigger] nm.view().contains_key(x) == resort_keys(m0, post).contains_key(x) by {}
            assert forall|x: Seq<char>| #[trigger] nm.view().contains_key(x) implies nm.view()[x] == resort_keys(m0, post)[x] by {
                if x != q2@ {
                    assert(post.contains(x) == pre.contains(x)) by {
                        if post.contains(x) {
                            let u = choose|u: int| 0 <= u < post.len() && #[trigger] post[u] == x;
                            assert(pre[u] == x);
                        }
                        if pre.contains(x) {
                            let u = choose|u: int| 0 <= u < pre.len() && #[trigger] pre[u] == x;
                            assert(post[u] == x);
                        }
                    }
                } else {
                    assert(post[t as int] == x);
                }
            }
            assert(nm.view() =~= resort_keys(m0, post));
        }
        t = t + 1;
    }
    assert(ks.take(ks.len() as int) =~= ks);
}

/// A node at or below the renamed one is held under its new key in the moved map.
proof fn lemma_moved_in_map(
    m: Map<Seq<char>, NormV>,
    k: Seq<char>,
    p: Seq<Seq<char>>,
    p2: Seq<Seq<char>>,
    nn: Seq<char>,
    q: Seq<char>,
)
    requires
        !rename_collides(m, p, p2),
        m.contains_key(q),
        under(m, q, p),
    ensures
        moved_map(m, k, p, p2, nn).contains_key(rekey(m, q, p, p2)),
        moved_map(m, k, p, p2, nn)[rekey(m, q, p, p2)] == renamed_entry(m, q, k, p, p2, nn),
{
    reveal(moved_map);
    reveal(resorted_map);
    reveal(renamed_map);
    let q2 = rekey(m, q, p, p2);
    let ma = moved_map(m, k, p, p2, nn);
    assert(ma.contains_key(q2));
    let w = choose|w: Seq<char>| m.contains_key(w) && #[trigger] rekey(m, w, p, p2) == q2;
    if w != q {
        assert(rename_collides(m, p, p2));
    }
}

/// The children of a moved node are held in the moved map, when every listed child is indexed.
pub proof fn lemma_moved_children_present(
    m: Map<Seq<char>, NormV>,
    k: Seq<char>,
    p: Seq<Seq<char>>,
    p2: Seq<Seq<char>>,
    nn: Seq<char>,
    q: Seq<char>,
    i: int,
)
    requires
        linked(m),
        !rename_collides(m, p, p2),
        m.contains_key(q),
        under(m, q, p),
        0 <= i < m[q].children_keys.len(),
    ensures
        moved_map(m, k, p, p2, nn).contains_key(renamed_entry(m, q, k, p, p2, nn).children_keys[i]),
{
    reveal(moved_map);
    reveal(resorted_map);
    reveal(renamed_map);
    let c = m[q].children_keys[i];
    assert(m[q].children_keys.contains(c));
    assert(m.contains_key(c));
    assert(renamed_entry(m, q, k, p, p2, nn).children_keys[i] == rekey(m, c, p, p2));
}

/// The service's state: where the documents live, which directories a scan skips, and the
/// flat map of indexed nodes.
pub struct DocService {
    nor_docs: NormalizedDocMap,
    ignore_dirs: Vec<String>,
    doc_root_path: String,
}

impl DocService {
    pub closed spec fn spec_map(&self) -> NormalizedDocMap {
        self.nor_docs
    }

    /// The indexed nodes, keyed by encoded path.
    pub open spec fn view(&self) -> Map<Seq<char>, NormV> {
        self.spec_map().view()
    }

    /// The number of indexed nodes: no path is deeper than that.
    pub closed spec fn spec_size(&self) -> nat {
        self.nor_docs.spec_len()
    }

    pub closed spec fn wf(&self) -> bool {
        self.nor_docs.wf() && linked(self.nor_docs.view()) && lists_in_order(self.nor_docs.view())
    }

    /// Every service value this library hands out keeps its flat map consistent: each key
    /// encodes its node's path, each node names its parent (an indexed directory that lists
    /// it), and each listed child names the node back; and every child list is in order,
    /// directories first, then by lower-cased id (files) or name (directories). Every
    /// operation keeps it so.
    pub proof fn lemma_consistent(&self)
        requires
            self.wf(),
        ensures
            linked(self.view()),
            lists_in_order(self.view()),
    {
    }

    pub closed spec fn spec_root(&self) -> Seq<char> {
        self.doc_root_path@
    }

    pub closed spec fn spec_ignore_dirs(&self) -> Seq<Seq<char>> {
        segs_view(self.ignore_dirs@)
    }

    /// An empty index over the documents under the settings' root.
    pub fn new(settings: &Settings) -> (r: DocService)
        ensures
            r.wf(),
            r.view() == empty_docs(),
            r.spec_root() == settings.doc_root_path@,
            r.spec_ignore_dirs() == segs_view(settings.ignore_dirs@),
    {
        proof {
            lemma_empty_linked();
            assert(lists_in_order(empty_docs()));
        }
        DocService {
            nor_docs: NormalizedDocMap::new(),
            ignore_dirs: copy_strings(&settings.ignore_dirs),
            doc_root_path: settings.doc_root_path.clone(),
        }
    }

    /// Takes the root and the ignored names from new settings, and empties the index until
    /// the next scan.
    pub fn sync_settings(&mut self, settings: &Settings)
        ensures
            final(self).wf(),
            final(self).view() == empty_docs(),
            final(self).spec_root() == settings.doc_root_path@,
            final(self).spec_ignore_dirs() == segs_view(settings.ignore_dirs@),
    {
        self.ignore_dirs = copy_strings(&settings.ignore_dirs);
        self.doc_root_path = settings.doc_root_path.clone();
        self.nor_docs = NormalizedDocMap::new();
        proof {
            lemma_empty_linked();
            assert(lists_in_order(empty_docs()));
        }
    }

    /// The document root.
    pub fn doc_root_path(&self) -> (r: &String)
        ensures
            r@ == self.spec_root(),
    {
        &self.doc_root_path
    }

    /// The directory names a scan does not enter.
    pub fn ignore_dirs(&self) -> (r: &Vec<String>)
        ensures
            segs_view(r@) == self.spec_ignore_dirs(),
    {
        &self.ignore_dirs
    }

    /// Whether the index holds no node yet.
    pub fn is_empty(&self) -> (r: bool)
        requires
            self.wf(),
        ensures
            r == (self.view() == empty_docs()),
    {
        let r = self.nor_docs.len() == 0;
        proof {
            if r {
                assert(self.view() =~= empty_docs());
            } else {
                self.nor_docs.lemma_view_at(0);
                assert(!empty_docs().contains_key(self.nor_docs.spec_key(0)));
            }
        }
        r
    }

    /// Whether a file name has the markdown extension.
    pub fn is_markdown(&self, file_name: &str) -> (r: bool)
        ensures
            r == crate::scan::ends_with_md(file_name@),
    {
        crate::scan::is_markdown(file_name)
    }

    /// Whether every segment of a decoded path is non-empty.
    fn segments_non_empty(path: &Vec<String>) -> (r: bool)
        ensures
            r == (forall|i: int| 0 <= i < path@.len() ==> (#[trigger] path@[i])@.len() > 0),
    {
        let mut i: usize = 0;
        while i < path.len()
            invariant
                0 <= i <= path@.len(),
                forall|j: int| 0 <= j < i ==> (#[trigger] path@[j])@.len() > 0,
            decreases path@.len() - i,
        {
            if path[i].as_str().is_empty() {
                return false;
            }
            i = i + 1;
        }
        true
    }

    /// Adds a file or directory under an encoded key to the index, listed in order among its
    /// parent's children. The key is stored in its canonical encoding.
    pub fn create_new_doc_at_cache(&mut self, doc_path: &str, is_file: bool) -> (r: Result<
        Doc,
        DocError,
    >)
        requires
            old(self).wf(),
        ensures
            final(self).wf(),
            final(self).spec_root() == old(self).spec_root(),
            final(self).spec_ignore_dirs() == old(self).spec_ignore_dirs(),
            ({
                let p = path_of_key(doc_path@);
                let m = old(self).view();
                match r {
                    Err(DocError::InvalidPath) => !valid_path(p) && final(self).view() == m,
                    Err(DocError::AlreadyExists) => valid_path(p) && m.contains_key(key_of(p))
                        && final(self).view() == m,
                    Err(DocError::ParentNotFound) => valid_path(p) && !m.contains_key(key_of(p))
                        && !parent_ok(m, p) && final(self).view() == m,
                    Ok(doc) => valid_path(p) && !m.contains_key(key_of(p)) && parent_ok(m, p)
                        && final(self).view() == created_map(m, p, is_file) && doc.name@ == p.last()
                        && doc.id@ == id_of(p.last(), p) && doc.is_file == is_file && segs_view(
                        doc.path@,
                    ) == p && doc.children@.len() == 0 && doc.headings@.len() == 0
                        && doc.keywords@.len() == 0,
                    _ => false,
                }
            }),
    {
        let ghost m = self.view();
        let path = denormalize_path(doc_path);
        let ghost p = segs_view(path@);
        proof {
            crate::codec::lemma_split_segments(crate::codec::decoded_text(doc_path@));
        }
        if !Self::segments_non_empty(&path) {
            proof {
                let i = choose|i: int| !(0 <= i < path@.len() ==> (#[trigger] path@[i])@.len() > 0);
                assert(p[i] == path@[i]@);
            }
            return Err(DocError::InvalidPath);
        }
        assert(valid_path(p)) by {
            assert forall|i: int| 0 <= i < p.len() implies (#[trigger] p[i]).len() > 0 && has_no_slash(
                p[i],
            ) by {
                assert(p[i] == path@[i]@);
                assert(path@[i]@.len() > 0);
            }
        }
        let key = normalize_path(&path);
        if self.nor_docs.get(key.as_str()).is_some() {
            return Err(DocError::AlreadyExists);
        }
        let n = path.len();
        let name = path[n - 1].clone();
        let id = make_id(&name, &path);
        let mut parent_doc: Option<(String, NormalizedDoc)> = None;
        if n > 1 {
            let mut parent_path = copy_strings(&path);
            parent_path.pop();
            assert(segs_view(parent_path@) =~= p.drop_last());
            let pk = normalize_path(&parent_path);
            match self.nor_docs.get(pk.as_str()) {
                Some(pd) => {
                    if pd.is_file {
                        return Err(DocError::ParentNotFound);
                    }
                    parent_doc = Some((pk, pd.duplicate()));
                    proof {
                        self.nor_docs.lemma_key_of_entry(pk@);
                    }
                },
                None => {
                    return Err(DocError::ParentNotFound);
                },
            }
        }
        let leaf = NormalizedDoc {
            name: name.clone(),
            id: id.clone(),
            is_file,
            children_keys: Vec::new(),
            path: copy_strings(&path),
            headings: Vec::new(),
            keywords: Vec::new(),
            parent_key: match &parent_doc {
                Some(pair) => Some(pair.0.clone()),
                None => None,
            },
        };
        assert(name@ == p.last());
        assert(segs_view(leaf.children_keys@) =~= Seq::<Seq<char>>::empty());
        assert(segs_view(leaf.headings@) =~= Seq::<Seq<char>>::empty());
        assert(segs_view(leaf.keywords@) =~= Seq::<Seq<char>>::empty());
        assert(leaf@.parent_key == leaf_of(p, is_file).parent_key);
        assert(leaf@ =~= leaf_of(p, is_file));
        self.nor_docs.insert_new(key.clone(), leaf);
        let ghost m1 = self.view();
        match parent_doc {
            Some(pair) => {
                let (pk, mut pd) = pair;
                let rk = if is_file {
                    Rank::new(is_file, id.as_str())
                } else {
                    Rank::new(is_file, name.as_str())
                };
                insert_child_key(&self.nor_docs, &mut pd.children_keys, key, &rk);
                assert(pd@ =~= NormV { children_keys: insert_sorted(m1, m1[pk@].children_keys, key_of(p)), ..m1[pk@] });
                self.nor_docs.replace(pk.as_str(), pd);
            },
            None => {},
        }
        proof {
            lemma_create_keeps_linked(m, p, is_file);
            lemma_create_keeps_order(m, p, is_file);
        }
        let doc = Doc {
            name,
            id,
            is_file,
            children: Vec::new(),
            path,
            headings: Vec::new(),
            keywords: Vec::new(),
        };
        Ok(doc)
    }

    /// Removes the node under an encoded key from the index, with every node below it, and
    /// drops the key from its parent's children. Nothing changes when the key is not indexed.
    pub fn delete_doc_at_cache(&mut self, doc_path: &str)
        requires
            old(self).wf(),
        ensures
            final(self).wf(),
            final(self).spec_root() == old(self).spec_root(),
            final(self).spec_ignore_dirs() == old(self).spec_ignore_dirs(),
            old(self).view().contains_key(doc_path@) ==> final(self).view() == deleted_map(
                old(self).view(),
                doc_path@,
            ),
            !old(self).view().contains_key(doc_path@) ==> final(self).view() == old(self).view(),
    {
        let ghost m = self.view();
        let entry = match self.nor_docs.get(doc_path) {
            Some(e) => e.duplicate(),
            None => {
                return;
            },
        };
        let key = doc_path.to_owned();
        self.nor_docs.remove_under(&entry.path);
        let ghost m1 = self.view();
        assert(m1 == m.restrict(m.dom().filter(|q: Seq<char>| !has_prefix(m[q].path, m[doc_path@].path))));
        match &entry.parent_key {
            Some(pk) => {
                match self.nor_docs.get(pk.as_str()) {
                    Some(pd) => {
                        let mut pd2 = pd.duplicate();
                        pd2.children_keys = remove_key(&pd.children_keys, &key);
                        proof {
                            self.nor_docs.lemma_key_of_entry(pk@);
                        }
                        assert(pd2@ =~= NormV { children_keys: without(m1[pk@].children_keys, doc_path@), ..m1[pk@] });
                        self.nor_docs.replace(pk.as_str(), pd2);
                    },
                    None => {},
                }
            },
            None => {},
        }
        proof {
            lemma_delete_keeps_linked(m, doc_path@);
            lemma_delete_keeps_order(m, doc_path@);
        }
    }

    /// Renames the node under an encoded key. The node and every node below it move under the
    /// new path (keys, paths, ids and parent keys rewritten), and the parent lists the new key
    /// in order. Renaming to the current name changes nothing.
    #[verifier::rlimit(80)]
    pub fn modify_name_at_cache(&mut self, modify_path: &str, new_name: &str) -> (r: Result<
        (),
        DocError,
    >)
        requires
            old(self).wf(),
        ensures
            final(self).wf(),
            final(self).spec_root() == old(self).spec_root(),
            final(self).spec_ignore_dirs() == old(self).spec_ignore_dirs(),
            ({
                let m = old(self).view();
                let k = modify_path@;
                let ok_name = m[k].path.len() >= 1 && new_name@.len() > 0 && has_no_slash(
                    new_name@,
                );
                match r {
                    Err(DocError::NotFound) => !m.contains_key(k) && final(self).view() == m,
                    Err(DocError::InvalidPath) => m.contains_key(k) && !ok_name && final(self).view()
                        == m,
                    Err(DocError::AlreadyExists) => m.contains_key(k) && ok_name && new_name@
                        != m[k].path.last() && rename_collides(
                        m,
                        m[k].path,
                        renamed_path(m, k, new_name@),
                    ) && final(self).view() == m,
                    Ok(()) => m.contains_key(k) && ok_name && if new_name@ == m[k].path.last() {
                        final(self).view() == m
                    } else {
                        !rename_collides(m, m[k].path, renamed_path(m, k, new_name@))
                            && final(self).view() == renamed_map(m, k, new_name@)
                    },
                    _ => false,
                }
            }),
    {
        proof {
            reveal(moved_map);
            reveal(resorted_map);
            reveal(renamed_map);
        }
        let ghost m = self.view();
        let entry = match self.nor_docs.get(modify_path) {
            Some(e) => e.duplicate(),
            None => {
                return Err(DocError::NotFound);
            },
        };
        let key = modify_path.to_owned();
        if entry.path.len() == 0 || !is_valid_name(new_name) {
            return Err(DocError::InvalidPath);
        }
        let nn = new_name.to_owned();
        let last = entry.path.len() - 1;
        assert(entry@.path[last as int] == entry.path@[last as int]@);
        if entry.path[last] == nn {
            return Ok(());
        }
        let p = copy_strings(&entry.path);
        let mut p2 = copy_strings(&entry.path);
        p2.set(last, nn.clone());
        let ghost pp = segs_view(p@);
        let ghost pp2 = segs_view(p2@);
        assert(pp2 =~= renamed_path(m, key@, nn@));
        let n = self.nor_docs.len();
        let mut nm = NormalizedDocMap::new();
        let mut moved_keys: Vec<String> = Vec::new();
        let mut i: usize = 0;
        while i < n
            invariant
                forall|q2: Seq<char>| #[trigger] segs_view(moved_keys@).contains(q2) <==> exists|j: int|
                    0 <= j < i && under(m, self.nor_docs.spec_key(j), pp) && #[trigger] rekey(m, self.nor_docs.spec_key(j), pp, pp2) == q2,
                segs_view(moved_keys@).no_duplicates(),
                self.wf(),
                self.view() == m,
                m == old(self).view(),
                self.spec_root() == old(self).spec_root(),
                self.spec_ignore_dirs() == old(self).spec_ignore_dirs(),
                n == self.nor_docs.spec_len(),
                nm.wf(),
                pp == segs_view(p@),
                pp2 == segs_view(p2@),
                p2@.len() >= 1,
                pp == m[key@].path,
                pp2 == renamed_path(m, key@, nn@),
                key@ == modify_path@,
                nn@ == new_name@,
                m.contains_key(key@),
                pp.len() >= 1,
                nn@ != pp.last(),
                new_name@.len() > 0 && has_no_slash(new_name@),
                0 <= i <= n,
                forall|q2: Seq<char>| #[trigger]
                    nm.view().contains_key(q2) <==> exists|j: int|
                        0 <= j < i && #[trigger] rekey(m, self.nor_docs.spec_key(j), pp, pp2) == q2,
                forall|j1: int, j2: int|
                    0 <= j1 < j2 < i ==> #[trigger] rekey(m, self.nor_docs.spec_key(j1), pp, pp2)
                        != #[trigger] rekey(m, self.nor_docs.spec_key(j2), pp, pp2),
                forall|j: int|
                    0 <= j < i ==> nm.view()[#[trigger] rekey(m, self.nor_docs.spec_key(j), pp, pp2)]
                        == moved_value(m, self.nor_docs.spec_key(j), key@, pp, pp2, nn@),
            decreases n - i,
        {
            let q = self.nor_docs.key_at(i);
            let e = self.nor_docs.doc_at(i);
            proof {
                self.nor_docs.lemma_view_at(i as int);
                self.nor_docs.lemma_key_of_entry(q@);
            }
            let is_under = starts_with_path(&e.path, &p);
            let rk = if is_under {
                let mp = moved_path(&e.path, p.len(), &p2);
                normalize_path(&mp)
            } else {
                q.clone()
            };
            assert(rk@ == rekey(m, q@, pp, pp2));
            if nm.position(rk.as_str()).is_some() {
                proof {
                    assert(nm.has(rk@));
                    assert(nm.view().contains_key(rk@));
                    let j = choose|j: int|
                        0 <= j < i && #[trigger] rekey(m, self.nor_docs.spec_key(j), pp, pp2) == rk@;
                    self.nor_docs.lemma_keys_distinct(j, i as int);
                    self.nor_docs.lemma_view_at(j);
                    assert(rekey(m, self.nor_docs.spec_key(j), pp, pp2) == rekey(m, q@, pp, pp2));
                    assert(m.contains_key(self.nor_docs.spec_key(j)) && m.contains_key(q@));
                    assert(rename_collides(m, pp, pp2));
                }
                return Err(DocError::AlreadyExists);
            }
            let v = if is_under {
                rename_entry(&self.nor_docs, e, q, &key, &p, &p2, &nn)
            } else {
                e.duplicate()
            };
            assert(v@ == moved_value(m, q@, key@, pp, pp2, nn@));
            let ghost nv0 = nm.view();
            let ghost mk0 = segs_view(moved_keys@);
            if is_under {
                moved_keys.push(rk.clone());
            }
            nm.insert_new(rk, v);
            proof {
                let mk = segs_view(moved_keys@);
                if is_under {
                    assert(mk =~= mk0.push(rk@));
                    assert(!mk0.contains(rk@)) by {
                        if mk0.contains(rk@) {
                            let j = choose|j: int|
                                0 <= j < i && under(m, self.nor_docs.spec_key(j), pp) && #[trigger] rekey(m, self.nor_docs.spec_key(j), pp, pp2) == rk@;
                            assert(nv0.contains_key(rk@));
                        }
                    }
                    assert forall|a: int, b: int| 0 <= a < b < mk.len() implies mk[a] != mk[b] by {
                        if b == mk.len() - 1 {
                            assert(mk0.contains(mk[a]));
                        } else {
                            assert(mk0[a] != mk0[b]);
                        }
                    }
                } else {
                    assert(mk =~= mk0);
                }
                assert forall|q2: Seq<char>| #[trigger] mk.contains(q2) <==> exists|j: int|
                    0 <= j < i + 1 && under(m, self.nor_docs.spec_key(j), pp) && #[trigger] rekey(m, self.nor_docs.spec_key(j), pp, pp2) == q2 by {
                    if is_under && q2 == rk@ {
                        assert(mk[mk.len() - 1] == q2);
                        assert(under(m, self.nor_docs.spec_key(i as int), pp) && rekey(m, self.nor_docs.spec_key(i as int), pp, pp2) == q2);
                    } else {
                        if mk.contains(q2) {
                            let t = choose|t: int| 0 <= t < mk.len() && mk[t] == q2;
                            assert(mk0[t] == q2);
                            assert(mk0.contains(q2));
                        }
                        if exists|j: int| 0 <= j < i + 1 && under(m, self.nor_docs.spec_key(j), pp) && #[trigger] rekey(m, self.nor_docs.spec_key(j), pp, pp2) == q2 {
                            let j = choose|j: int| 0 <= j < i + 1 && under(m, self.nor_docs.spec_key(j), pp) && #[trigger] rekey(m, self.nor_docs.spec_key(j), pp, pp2) == q2;
                            if j == i {
                                assert(is_under);
                                assert(q2 == rk@);
                            }
                            assert(mk0.contains(q2));
                            let t = choose|t: int| 0 <= t < mk0.len() && mk0[t] == q2;
                            assert(mk[t] == q2);
                        }
                    }
                }
            }
            proof {
                assert forall|q2: Seq<char>| #[trigger] nm.view().contains_key(q2) <==> exists|j: int|
                    0 <= j < i + 1 && #[trigger] rekey(m, self.nor_docs.spec_key(j), pp, pp2) == q2 by {
                    if q2 == rk@ {
                        assert(rekey(m, self.nor_docs.spec_key(i as int), pp, pp2) == q2);
                    } else if nm.view().contains_key(q2) {
                        assert(nv0.contains_key(q2));
                    } else {
                        if exists|j: int|
                            0 <= j < i + 1 && #[trigger] rekey(m, self.nor_docs.spec_key(j), pp, pp2) == q2 {
                            let j = choose|j: int|
                                0 <= j < i + 1 && #[trigger] rekey(m, self.nor_docs.spec_key(j), pp, pp2) == q2;
                            assert(j != i);
                            assert(nv0.contains_key(q2));
                        }
                    }
                }
                assert forall|j1: int, j2: int|
                    0 <= j1 < j2 < i + 1 implies #[trigger] rekey(m, self.nor_docs.spec_key(j1), pp, pp2)
                        != #[trigger] rekey(m, self.nor_docs.spec_key(j2), pp, pp2) by {
                    if j2 == i {
                        assert(nv0.contains_key(rekey(m, self.nor_docs.spec_key(j1), pp, pp2)));
                    }
                }
                assert forall|j: int|
                    0 <= j < i + 1 implies nm.view()[#[trigger] rekey(m, self.nor_docs.spec_key(j), pp, pp2)]
                        == moved_value(m, self.nor_docs.spec_key(j), key@, pp, pp2, nn@) by {
                    if j < i {
                        assert(nv0.contains_key(rekey(m, self.nor_docs.spec_key(j), pp, pp2)));
                    }
                }
            }
            i = i + 1;
        }
        proof {
            assert forall|q1: Seq<char>, q2: Seq<char>|
                m.contains_key(q1) && m.contains_key(q2) && q1 != q2 implies #[trigger] rekey(m, q1, pp, pp2)
                    != #[trigger] rekey(m, q2, pp, pp2) by {
                let j1 = choose|j: int| 0 <= j < n && #[trigger] self.nor_docs.spec_key(j) == q1;
                let j2 = choose|j: int| 0 <= j < n && #[trigger] self.nor_docs.spec_key(j) == q2;
                if j1 < j2 {
                } else {
                }
            }
            let mm = moved_map(m, key@, pp, pp2, nn@);
            assert forall|q2: Seq<char>| #[trigger] nm.view().contains_key(q2) == mm.contains_key(q2) by {
                if nm.view().contains_key(q2) {
                    let j = choose|j: int|
                        0 <= j < n && #[trigger] rekey(m, self.nor_docs.spec_key(j), pp, pp2) == q2;
                    self.nor_docs.lemma_view_at(j);
                    assert(m.contains_key(self.nor_docs.spec_key(j)));
                }
                if mm.contains_key(q2) {
                    let q = choose|q: Seq<char>| m.contains_key(q) && #[trigger] rekey(m, q, pp, pp2) == q2;
                    let j = choose|j: int| 0 <= j < n && #[trigger] self.nor_docs.spec_key(j) == q;
                    assert(rekey(m, self.nor_docs.spec_key(j), pp, pp2) == q2);
                }
            }
            assert forall|q2: Seq<char>| #[trigger] nm.view().contains_key(q2) implies nm.view()[q2]
                == mm[q2] by {
                let j = choose|j: int|
                    0 <= j < n && #[trigger] rekey(m, self.nor_docs.spec_key(j), pp, pp2) == q2;
                self.nor_docs.lemma_view_at(j);
                let q = choose|q: Seq<char>| m.contains_key(q) && #[trigger] rekey(m, q, pp, pp2) == q2;
                assert(q == self.nor_docs.spec_key(j));
            }
            assert(nm.view() =~= mm);
            assert forall|q2: Seq<char>| #[trigger] segs_view(moved_keys@).contains(q2) <==> is_moved_key(m, q2, pp, pp2) by {
                if is_moved_key(m, q2, pp, pp2) {
                    let q = choose|q: Seq<char>| m.contains_key(q) && under(m, q, pp) && #[trigger] rekey(m, q, pp, pp2) == q2;
                    let j = choose|j: int| 0 <= j < n && #[trigger] self.nor_docs.spec_key(j) == q;
                    assert(under(m, self.nor_docs.spec_key(j), pp) && rekey(m, self.nor_docs.spec_key(j), pp, pp2) == q2);
                }
                if segs_view(moved_keys@).contains(q2) {
                    let j = choose|j: int| 0 <= j < n && under(m, self.nor_docs.spec_key(j), pp) && #[trigger] rekey(m, self.nor_docs.spec_key(j), pp, pp2) == q2;
                    self.nor_docs.lemma_view_at(j);
                }
            }
        }
        let ghost mm = moved_map(m, key@, pp, pp2, nn@);
        let ghost rs = resorted_map(m, key@, pp, pp2, nn@);
        let ghost mk = segs_view(moved_keys@);
        proof {
            assert(nm.view() == mm);
            assert forall|i: int| 0 <= i < mk.len() implies mm.contains_key(#[trigger] mk[i]) && (forall|j: int|
                0 <= j < mm[mk[i]].children_keys.len() ==> mm.contains_key(#[trigger] mm[mk[i]].children_keys[j])) by {
                assert(mk.contains(mk[i]));
                let q = choose|q: Seq<char>| m.contains_key(q) && under(m, q, pp) && #[trigger] rekey(m, q, pp, pp2) == mk[i];
                lemma_moved_in_map(m, key@, pp, pp2, nn@, q);
                assert forall|j: int| 0 <= j < mm[mk[i]].children_keys.len() implies mm.contains_key(#[trigger] mm[mk[i]].children_keys[j]) by {
                    lemma_moved_children_present(m, key@, pp, pp2, nn@, q, j);
                }
            }
        }
        resort_children(&mut nm, &moved_keys);
        proof {
            assert(nm.view() == resort_keys(mm, mk));
            assert forall|q2: Seq<char>| #[trigger] nm.view().contains_key(q2) == rs.contains_key(q2) by {}
            assert forall|q2: Seq<char>| #[trigger] nm.view().contains_key(q2) implies nm.view()[q2] == rs[q2] by {
                if mk.contains(q2) {
                    assert(is_moved_key(m, q2, pp, pp2));
                } else {
                    assert(!is_moved_key(m, q2, pp, pp2));
                }
            }
            assert(nm.view() =~= rs);
        }
        let ghost ma = nm.view();
        match &entry.parent_key {
            Some(pk) => {
                let pk_under = match self.nor_docs.get(pk.as_str()) {
                    Some(pe) => starts_with_path(&pe.path, &p),
                    None => false,
                };
                assert(pk_under == under(m, pk@, pp));
                if !pk_under {
                    let k2 = normalize_path(&p2);
                    proof {
                        assert(pp.take(pp.len() as int) =~= pp);
                        assert(has_prefix(pp, pp));
                        assert(moved(pp, pp, pp2) =~= pp2);
                        assert(rekey(m, key@, pp, pp2) == k2@);
                        assert(ma.contains_key(k2@));
                    }
                    let rk = match nm.get(k2.as_str()) {
                        Some(ne) => if ne.is_file {
                            Rank::new(ne.is_file, ne.id.as_str())
                        } else {
                            Rank::new(ne.is_file, ne.name.as_str())
                        },
                        None => {
                            return Err(DocError::NotFound);
                        },
                    };
                    match nm.get(pk.as_str()) {
                        Some(pd) => {
                            let mut pd2 = pd.duplicate();
                            let mut ch = remove_key(&pd.children_keys, &key);
                            insert_child_key(&nm, &mut ch, k2, &rk);
                            pd2.children_keys = ch;
                            proof {
                                nm.lemma_key_of_entry(pk@);
                            }
                            assert(pd2@ =~= NormV {
                                children_keys: insert_sorted(ma, without(ma[pk@].children_keys, key@), key_of(pp2)),
                                ..ma[pk@]
                            });
                            nm.replace(pk.as_str(), pd2);
                        },
                        None => {},
                    }
                }
            },
            None => {},
        }
        proof {
            assert(!rename_collides(m, pp, pp2));
            lemma_rename_keeps_linked(m, key@, nn@);
            assert(rename_ok(m, key@, nn@)) by {
                reveal(rename_ok);
            }
            lemma_rename_keeps_order(m, key@, nn@);
        }
        self.nor_docs = nm;
        Ok(())
    }

    /// The tree node for the entry under `k`, its children followed to `depth` levels.
    fn build_doc(&self, k: &String, e: &NormalizedDoc, depth: usize) -> (r: Doc)
        requires
            self.wf(),
            self.view().contains_key(k@),
            e@ == self.view()[k@],
        ensures
            doc_of(r, self.view(), k@, depth as nat),
        decreases depth,
    {
        let ghost m = self.view();
        let mut children: Vec<Doc> = Vec::new();
        if depth > 0 {
            let mut i: usize = 0;
            while i < e.children_keys.len()
                invariant
                    self.wf(),
                    m == self.view(),
                    e@ == m[k@],
                    depth > 0,
                    0 <= i <= e.children_keys@.len(),
                    children@.len() == present_keys(m, e@.children_keys.take(i as int)).len(),
                    forall|j: int|
                        0 <= j < children@.len() ==> doc_of(
                            #[trigger] children@[j],
                            m,
                            present_keys(m, e@.children_keys.take(i as int))[j],
                            (depth - 1) as nat,
                        ),
                decreases e.children_keys@.len() - i,
            {
                let ghost pre = present_keys(m, e@.children_keys.take(i as int));
                let ghost next = e@.children_keys.take(i as int + 1);
                assert(next.drop_last() =~= e@.children_keys.take(i as int));
                assert(next.last() == e.children_keys@[i as int]@);
                let c = &e.children_keys[i];
                match self.nor_docs.get(c.as_str()) {
                    Some(ce) => {
                        let d = self.build_doc(c, ce, depth - 1);
                        children.push(d);
                        assert(present_keys(m, next) == pre.push(c@));
                    },
                    None => {
                        assert(present_keys(m, next) == pre);
                    },
                }
                i = i + 1;
            }
            assert(e@.children_keys.take(e.children_keys@.len() as int) =~= e@.children_keys);
        }
        Doc {
            name: e.name.clone(),
            id: e.id.clone(),
            is_file: e.is_file,
            children,
            path: copy_strings(&e.path),
            headings: copy_strings(&e.headings),
            keywords: copy_strings(&e.keywords),
        }
    }

    /// The root-level keys, sorted: directories first, then by lower-cased id or name.
    pub fn root_keys(&self) -> (r: Vec<String>)
        requires
            self.wf(),
        ensures
            exists|ks: Seq<Seq<char>>| lists_roots(self.view(), ks) && segs_view(r@) == sort_keys(self.view(), ks),
    {
        let ghost m = self.view();
        let n = self.nor_docs.len();
        let mut out: Vec<String> = Vec::new();
        let ghost mut ks: Seq<Seq<char>> = seq![];
        let mut i: usize = 0;
        while i < n
            invariant
                self.wf(),
                m == self.view(),
                n == self.nor_docs.spec_len(),
                0 <= i <= n,
                ks.no_duplicates(),
                forall|k: Seq<char>| #[trigger] ks.contains(k) <==> (is_root(m, k) && exists|j: int| 0 <= j < i && #[trigger] self.nor_docs.spec_key(j) == k),
                segs_view(out@) == sort_keys(m, ks),
            decreases n - i,
        {
            let e = self.nor_docs.doc_at(i);
            let q = self.nor_docs.key_at(i);
            proof {
                self.nor_docs.lemma_view_at(i as int);
            }
            if e.parent_key.is_none() {
                let rk = if e.is_file {
                    Rank::new(e.is_file, e.id.as_str())
                } else {
                    Rank::new(e.is_file, e.name.as_str())
                };
                proof {
                    if ks.contains(q@) {
                        let j = choose|j: int| 0 <= j < i && #[trigger] self.nor_docs.spec_key(j) == q@;
                        self.nor_docs.lemma_keys_distinct(j, i as int);
                    }
                }
                insert_child_key(&self.nor_docs, &mut out, q.clone(), &rk);
                proof {
                    let ks2 = ks.push(q@);
                    assert(ks2.drop_last() =~= ks);
                    assert forall|k: Seq<char>| #[trigger] ks2.contains(k) <==> (is_root(m, k) && exists|j: int| 0 <= j < i + 1 && #[trigger] self.nor_docs.spec_key(j) == k) by {
                        if ks2.contains(k) && k != q@ {
                            let t = choose|t: int| 0 <= t < ks2.len() && ks2[t] == k;
                            assert(ks.contains(k));
                        }
                        if k == q@ {
                            assert(ks2[ks.len() as int] == k);
                        }
                        if is_root(m, k) && exists|j: int| 0 <= j < i + 1 && #[trigger] self.nor_docs.spec_key(j) == k {
                            let j = choose|j: int| 0 <= j < i + 1 && #[trigger] self.nor_docs.spec_key(j) == k;
                            if j < i {
                                assert(ks.contains(k));
                                let t = choose|t: int| 0 <= t < ks.len() && ks[t] == k;
                                assert(ks2[t] == k);
                            }
                        }
                    }
                    ks = ks2;
                }
            } else {
                proof {
                    assert forall|k: Seq<char>| #[trigger] ks.contains(k) <==> (is_root(m, k) && exists|j: int| 0 <= j < i + 1 && #[trigger] self.nor_docs.spec_key(j) == k) by {
                        if is_root(m, k) && exists|j: int| 0 <= j < i + 1 && #[trigger] self.nor_docs.spec_key(j) == k {
                            let j = choose|j: int| 0 <= j < i + 1 && #[trigger] self.nor_docs.spec_key(j) == k;
                            if j == i {
                                assert(false);
                            }
                        }
                    }
                }
            }
            i = i + 1;
        }
        proof {
            assert forall|k: Seq<char>| #[trigger] ks.contains(k) <==> is_root(m, k) by {
                if is_root(m, k) {
                    let j = choose|j: int| 0 <= j < n && #[trigger] self.nor_docs.spec_key(j) == k;
                }
            }
        }
        out
    }

    /// Tree nodes for the entries under `keys`, in order, skipping keys that are not indexed.
    fn build_docs(&self, keys: &Vec<String>) -> (r: Vec<Doc>)
        requires
            self.wf(),
        ensures
            docs_of(r@, self.view(), present_keys(self.view(), segs_view(keys@)), self.spec_size()),
    {
        let ghost m = self.view();
        let depth = self.nor_docs.len();
        let mut out: Vec<Doc> = Vec::new();
        let mut i: usize = 0;
        while i < keys.len()
            invariant
                self.wf(),
                m == self.view(),
                depth == self.spec_size(),
                0 <= i <= keys@.len(),
                docs_of(out@, m, present_keys(m, segs_view(keys@.take(i as int))), depth as nat),
            decreases keys@.len() - i,
        {
            let ghost pre = present_keys(m, segs_view(keys@.take(i as int)));
            let ghost next = segs_view(keys@.take(i as int + 1));
            assert(next.drop_last() =~= segs_view(keys@.take(i as int)));
            assert(next.last() == keys@[i as int]@);
            let c = &keys[i];
            match self.nor_docs.get(c.as_str()) {
                Some(ce) => {
                    let d = self.build_doc(c, ce, depth);
                    out.push(d);
                    assert(present_keys(m, next) == pre.push(c@));
                },
                None => {
                    assert(present_keys(m, next) == pre);
                },
            }
            i = i + 1;
        }
        assert(keys@.take(keys@.len() as int) =~= keys@);
        out
    }

    /// The direct children of the folder under an encoded key, as tree nodes; the empty key
    /// stands for the root.
    pub fn get_sub_doc_items(&self, doc_path: &str) -> (r: Result<Vec<Doc>, DocError>)
        requires
            self.wf(),
        ensures
            ({
                let m = self.view();
                match r {
                    Ok(docs) => if doc_path@.len() == 0 {
                        exists|ks: Seq<Seq<char>>|
                            lists_roots(m, ks) && docs_of(
                                docs@,
                                m,
                                present_keys(m, sort_keys(m, ks)),
                                self.spec_size(),
                            )
                    } else {
                        m.contains_key(doc_path@) && docs_of(
                            docs@,
                            m,
                            present_keys(m, m[doc_path@].children_keys),
                            self.spec_size(),
                        )
                    },
                    Err(e) => e == DocError::NotFound && doc_path@.len() > 0 && !m.contains_key(
                        doc_path@,
                    ),
                }
            }),
    {
        if doc_path.is_empty() {
            let keys = self.root_keys();
            Ok(self.build_docs(&keys))
        } else {
            match self.nor_docs.get(doc_path) {
                Some(e) => Ok(self.build_docs(&e.children_keys)),
                None => Err(DocError::NotFound),
            }
        }
    }

    /// The whole tree: the root-level nodes in order, each with its descendants.
    pub fn get_docs(&self) -> (r: Vec<Doc>)
        requires
            self.wf(),
        ensures
            exists|ks: Seq<Seq<char>>|
                lists_roots(self.view(), ks) && docs_of(
                    r@,
                    self.view(),
                    present_keys(self.view(), sort_keys(self.view(), ks)),
                    self.spec_size(),
                ),
    {
        let keys = self.root_keys();
        self.build_docs(&keys)
    }

    /// The node under a key.
    pub fn get(&self, doc_path: &str) -> (r: Option<&NormalizedDoc>)
        requires
            self.wf(),
        ensures
            match r {
                Some(d) => self.view().contains_key(doc_path@) && d@ == self.view()[doc_path@],
                None => !self.view().contains_key(doc_path@),
            },
    {
        self.nor_docs.get(doc_path)
    }

    /// A copy of the flat map.
    pub fn get_normalized_docs(&self) -> (r: NormalizedDocMap)
        requires
            self.wf(),
        ensures
            r.wf(),
            r.view() == self.view(),
    {
        self.nor_docs.duplicate()
    }

    /// Replaces the index by one built from a fresh scan: the entries, parents before
    /// children, are taken in one after the other.
    pub fn refresh_doc(&mut self, scanned: &Vec<ScanItem>)
        requires
            old(self).wf(),
        ensures
            final(self).wf(),
            final(self).spec_root() == old(self).spec_root(),
            final(self).spec_ignore_dirs() == old(self).spec_ignore_dirs(),
            final(self).view() == scanned_map(scanned@, old(self).spec_ignore_dirs()),
    {
        self.nor_docs = NormalizedDocMap::new();
        proof {
            lemma_empty_linked();
            assert(lists_in_order(empty_docs()));
            assert(scanned_map(scanned@.take(0), old(self).spec_ignore_dirs()) == empty_docs());
        }
        let ghost ignore = self.spec_ignore_dirs();
        let mut i: usize = 0;
        while i < scanned.len()
            invariant
                self.wf(),
                self.spec_root() == old(self).spec_root(),
                self.spec_ignore_dirs() == old(self).spec_ignore_dirs(),
                ignore == old(self).spec_ignore_dirs(),
                0 <= i <= scanned@.len(),
                self.view() == scanned_map(scanned@.take(i as int), ignore),
            decreases scanned@.len() - i,
        {
            let item = &scanned[i];
            let ghost items = scanned@.take(i as int + 1);
            assert(items.drop_last() =~= scanned@.take(i as int));
            assert(items.last() == scanned@[i as int]);
            match scanned_doc_path(item, &self.ignore_dirs) {
                Some(p) => {
                    let key = normalize_path(&p);
                    let _ = self.create_new_doc_at_cache(key.as_str(), !item.is_dir);
                },
                None => {},
            }
            i = i + 1;
        }
        assert(scanned@.take(scanned@.len() as int) =~= scanned@);
    }

    /// The filesystem names, from the document root, of the node under a key; `name`, when
    /// given, replaces the last one.
    pub fn path_convertor_with_name(&self, str_path: &str, is_file: bool, name: Option<&str>) -> (r:
        Vec<String>)
        ensures
            segs_view(r@) == fs_segments(
                str_path@,
                is_file,
                match name {
                    Some(n) => Some(n@),
                    None => None,
                },
            ),
    {
        let mut parts = denormalize_path(str_path);
        let last = parts.len() - 1;
        let ghost p0 = segs_view(parts@);
        match name {
            Some(n) => {
                parts.set(last, n.to_owned());
                assert(segs_view(parts@) =~= p0.update(last as int, n@));
            },
            None => {},
        }
        let ghost p1 = segs_view(parts@);
        if is_file {
            let mut l = parts[last].clone();
            l.append(".md");
            proof {
                reveal_strlit(".md");
                assert(".md"@ =~= seq!['.', 'm', 'd']);
            }
            parts.set(last, l);
            assert(segs_view(parts@) =~= p1.update(last as int, p1.last() + seq!['.', 'm', 'd']));
        }
        parts
    }

    /// The filesystem names, from the document root, of the node under a key.
    pub fn path_convertor(&self, str_path: &str, is_file: bool) -> (r: Vec<String>)
        ensures
            segs_view(r@) == fs_segments(str_path@, is_file, None),
    {
        self.path_convertor_with_name(str_path, is_file, None)
    }

    /// Checks that the folder a node would be pasted into is indexed: the root, or an indexed
    /// directory.
    pub fn check_paste_parent(&self, paste_path: &str) -> (r: Result<(), DocError>)
        requires
            self.wf(),
        ensures
            ({
                let pk = parent_folder_key(path_of_key(paste_path@));
                r is Ok <==> (pk.len() == 0 || (self.view().contains_key(pk) && !self.view()[pk].is_file))
            }),
            r matches Err(e) ==> e == DocError::InvalidDestination,
    {
        let mut parts = denormalize_path(paste_path);
        if parts.len() <= 1 {
            return Ok(());
        }
        parts.pop();
        let ghost p = path_of_key(paste_path@);
        assert(segs_view(parts@) =~= p.drop_last());
        let pk = normalize_path(&parts);
        if pk.as_str().is_empty() {
            return Ok(());
        }
        match self.nor_docs.get(pk.as_str()) {
            Some(d) => if d.is_file {
                Err(DocError::InvalidDestination)
            } else {
                Ok(())
            },
            None => Err(DocError::InvalidDestination),
        }
    }
}

} // verus!
