//! Realm topology: grouping realms into connected-realm sets.
//!
//! Each realm reports the ordered list of realm identifiers sharing its
//! auction house. Grouping takes those lists verbatim, sorts them by their
//! first element (the lead realm), and removes adjacent duplicates. Upstream
//! data is assumed to enumerate a group's members in the same order for every
//! member realm; under that assumption the result is canonical — one strictly
//! ordered list per group — and grouping is therefore idempotent and
//! independent of input order (see `lemma_grouping_canonical`).

use vstd::prelude::*;
use vstd::string::StringSliceAdditionalSpecFns;

use crate::order::{
    bytes_le, bytes_lt, str_bytes_le, lemma_bytes_le_total, lemma_bytes_le_antisymmetric,
    lemma_bytes_le_transitive, lemma_multiset_to_contains, lemma_remove_insert_multiset,
    lemma_push_to_set,
};

verus! {

/// What upstream reports about one realm: its display name, its unique slug,
/// and the ordered list of slugs sharing its auction house (itself included).
#[derive(Debug)]
pub struct RealmInfo {
    pub name: String,
    pub slug: String,
    pub connected_realms: Vec<String>,
}

/// The connected-realm lists of the given realms, as character sequences.
pub open spec fn realm_lists(infos: Seq<RealmInfo>) -> Seq<Seq<Seq<char>>> {
    infos.map_values(|r: RealmInfo| r.connected_realms.deep_view())
}

/// A sequence of groups, as character sequences.
pub open spec fn groups_view(s: Seq<Vec<String>>) -> Seq<Seq<Seq<char>>> {
    s.map_values(|g: Vec<String>| g.deep_view())
}

/// The sort key of a group: the byte encoding of its first (lead) realm.
pub open spec fn group_key(g: Seq<Seq<char>>) -> Seq<u8>
    recommends
        g.len() >= 1,
{
    vstd::utf8::encode_utf8(g[0])
}

pub open spec fn key_sorted(s: Seq<Seq<Seq<char>>>) -> bool {
    forall|i: int, j: int|
        0 <= i < j < s.len() ==> bytes_le(group_key(#[trigger] s[i]), group_key(#[trigger] s[j]))
}

pub open spec fn strictly_key_sorted(s: Seq<Seq<Seq<char>>>) -> bool {
    forall|i: int, j: int|
        0 <= i < j < s.len() ==> bytes_lt(group_key(#[trigger] s[i]), group_key(#[trigger] s[j]))
}

/// The load-bearing upstream assumption: lists that agree on their lead realm
/// are identical. Upstream promises, but does not prove, that every member of
/// a connected-realm group reports the same list.
pub open spec fn lists_coherent(ls: Seq<Seq<Seq<char>>>) -> bool {
    forall|i: int, j: int|
        0 <= i < ls.len() && 0 <= j < ls.len() && group_key(#[trigger] ls[i]) == group_key(
            #[trigger] ls[j],
        ) ==> ls[i] == ls[j]
}

/// Everything `process_connected_realms` promises of its result: the distinct
/// lists of the input, ordered by lead realm — strictly so when the input is
/// coherent.
pub open spec fn grouping_post(lists: Seq<Seq<Seq<char>>>, r: Seq<Seq<Seq<char>>>) -> bool {
    &&& r.to_set() == lists.to_set()
    &&& key_sorted(r)
    &&& forall|i: int| 0 <= i < r.len() - 1 ==> (#[trigger] r[i]) != r[i + 1]
    &&& forall|i: int| 0 <= i < r.len() ==> (#[trigger] r[i]).len() >= 1
    &&& (lists_coherent(lists) ==> strictly_key_sorted(r))
}

/// Two strictly key-sorted group sequences with the same groups are the same
/// sequence: the grouping result is canonical. Together with
/// `process_connected_realms`'s contract this says grouping is idempotent and
/// independent of the order of its input.
pub proof fn lemma_grouping_canonical(r1: Seq<Seq<Seq<char>>>, r2: Seq<Seq<Seq<char>>>)
    requires
        strictly_key_sorted(r1),
        strictly_key_sorted(r2),
        r1.to_set() == r2.to_set(),
    ensures
        r1 == r2,
    decreases r1.len(),
{
    if r1.len() == 0 {
        if r2.len() > 0 {
            assert(r2.to_set().contains(r2[0]));
            assert(r1.to_set().contains(r2[0]));
            let k = choose|k: int| 0 <= k < r1.len() && r1[k] == r2[0];
            assert(false);
        }
        assert(r1 =~= r2);
    } else {
        assert(r1.to_set().contains(r1[0]));
        assert(r2.to_set().contains(r1[0]));
        let j = choose|j: int| 0 <= j < r2.len() && r2[j] == r1[0];
        assert(r2.to_set().contains(r2[0]));
        assert(r1.to_set().contains(r2[0]));
        let i = choose|i: int| 0 <= i < r1.len() && r1[i] == r2[0];
        // The heads carry the least keys of equal sets, so they are equal.
        if j > 0 {
            assert(bytes_lt(group_key(r2[0]), group_key(r2[j])));
            assert(bytes_le(group_key(r2[0]), group_key(r1[0])));
            if i > 0 {
                assert(bytes_lt(group_key(r1[0]), group_key(r1[i])));
                assert(bytes_le(group_key(r1[0]), group_key(r2[0])));
            } else {
                assert(r1[0] == r2[0]);
                assert(bytes_le(group_key(r1[0]), group_key(r2[0]))) by {
                    lemma_bytes_le_total(group_key(r1[0]), group_key(r1[0]));
                }
            }
            lemma_bytes_le_antisymmetric(group_key(r1[0]), group_key(r2[0]));
            // Equal keys inside strictly sorted r2 force j == 0.
            assert(group_key(r2[0]) == group_key(r2[j]));
            assert(false);
        }
        assert(r1[0] == r2[0]);
        let t1 = r1.skip(1);
        let t2 = r2.skip(1);
        assert(strictly_key_sorted(t1)) by {
            assert(forall|a: int, b: int|
                0 <= a < b < t1.len() ==> t1[a] == r1[a + 1] && t1[b] == r1[b + 1]);
        }
        assert(strictly_key_sorted(t2)) by {
            assert(forall|a: int, b: int|
                0 <= a < b < t2.len() ==> t2[a] == r2[a + 1] && t2[b] == r2[b + 1]);
        }
        // The head appears only once in each, so the tails hold equal sets.
        assert(t1.to_set() =~= t2.to_set()) by {
            assert forall|x: Seq<Seq<char>>| #[trigger] t1.to_set().contains(x) implies t2.to_set()
                .contains(x) by {
                let k = choose|k: int| 0 <= k < t1.len() && t1[k] == x;
                assert(r1[k + 1] == x);
                assert(bytes_lt(group_key(r1[0]), group_key(x)));
                assert(r2.to_set().contains(x));
                let m = choose|m: int| 0 <= m < r2.len() && r2[m] == x;
                if m == 0 {
                    assert(x == r1[0]);
                    assert(false);
                }
                assert(t2[m - 1] == x);
            }
            assert forall|x: Seq<Seq<char>>| #[trigger] t2.to_set().contains(x) implies t1.to_set()
                .contains(x) by {
                let k = choose|k: int| 0 <= k < t2.len() && t2[k] == x;
                assert(r2[k + 1] == x);
                assert(bytes_lt(group_key(r2[0]), group_key(x)));
                assert(r1.to_set().contains(x));
                let m = choose|m: int| 0 <= m < r1.len() && r1[m] == x;
                if m == 0 {
                    assert(x == r2[0]);
                    assert(false);
                }
                assert(t1[m - 1] == x);
            }
        }
        lemma_grouping_canonical(t1, t2);
        assert(r1 =~= r2) by {
            assert(forall|k: int| 1 <= k < r1.len() ==> r1[k] == t1[k - 1]);
            assert(forall|k: int| 1 <= k < r2.len() ==> r2[k] == t2[k - 1]);
        }
    }
}

/// Grouping depends on nothing but the set of connected-realm lists: two runs
/// over inputs holding the same lists — the same input twice, a permutation of
/// it, or a run's own output fed back in — yield the same groups in the same
/// order, provided the lists are coherent.
pub proof fn lemma_grouping_order_independent(
    l1: Seq<Seq<Seq<char>>>,
    r1: Seq<Seq<Seq<char>>>,
    l2: Seq<Seq<Seq<char>>>,
    r2: Seq<Seq<Seq<char>>>,
)
    requires
        lists_coherent(l1),
        l1.to_set() == l2.to_set(),
        grouping_post(l1, r1),
        grouping_post(l2, r2),
    ensures
        r1 == r2,
{
    // Coherence carries over to any sequence holding the same lists.
    assert(lists_coherent(l2)) by {
        assert forall|i: int, j: int|
            0 <= i < l2.len() && 0 <= j < l2.len() && group_key(#[trigger] l2[i]) == group_key(
                #[trigger] l2[j],
            ) implies l2[i] == l2[j] by {
            assert(l2.to_set().contains(l2[i]));
            assert(l1.to_set().contains(l2[i]));
            let mi = choose|m: int| 0 <= m < l1.len() && l1[m] == l2[i];
            assert(l2.to_set().contains(l2[j]));
            assert(l1.to_set().contains(l2[j]));
            let mj = choose|m: int| 0 <= m < l1.len() && l1[m] == l2[j];
            assert(group_key(l1[mi]) == group_key(l1[mj]));
        }
    }
    lemma_grouping_canonical(r1, r2);
}

/// Copies one connected-realm list.
fn clone_group(g: &Vec<String>) -> (r: Vec<String>)
    ensures
        r.deep_view() == g.deep_view(),
        r@.len() == g@.len(),
{
    let mut r: Vec<String> = Vec::new();
    let mut i: usize = 0;
    while i < g.len()
        invariant
            0 <= i <= g@.len(),
            r@.len() == i,
            forall|k: int| 0 <= k < i ==> (#[trigger] r@[k])@ == g@[k]@,
        decreases g@.len() - i,
    {
        let s = g[i].clone();
        r.push(s);
        i = i + 1;
    }
    proof {
        assert(r.deep_view() =~= g.deep_view());
    }
    r
}

/// Compares two connected-realm lists member by member.
fn groups_equal(a: &Vec<String>, b: &Vec<String>) -> (r: bool)
    ensures
        r == (a.deep_view() == b.deep_view()),
{
    if a.len() != b.len() {
        proof {
            assert(a.deep_view().len() == a@.len());
            assert(b.deep_view().len() == b@.len());
        }
        return false;
    }
    let mut i: usize = 0;
    while i < a.len()
        invariant
            0 <= i <= a@.len(),
            a@.len() == b@.len(),
            forall|k: int| 0 <= k < i ==> (#[trigger] a@[k])@ == b@[k]@,
        decreases a@.len() - i,
    {
        if !(a[i] == b[i]) {
            proof {
                assert(a.deep_view()[i as int] == a@[i as int]@);
                assert(b.deep_view()[i as int] == b@[i as int]@);
            }
            return false;
        }
        i = i + 1;
    }
    proof {
        assert(a.deep_view() =~= b.deep_view());
    }
    true
}

/// Compares two groups by their lead realm.
fn group_le(a: &Vec<String>, b: &Vec<String>) -> (r: bool)
    requires
        a@.len() >= 1,
        b@.len() >= 1,
    ensures
        r == bytes_le(group_key(a.deep_view()), group_key(b.deep_view())),
{
    let r = str_bytes_le(a[0].as_str(), b[0].as_str());
    proof {
        assert(a.deep_view()[0] == a@[0]@);
        assert(b.deep_view()[0] == b@[0]@);
    }
    r
}

proof fn lemma_bytes_le_reflexive(a: Seq<u8>)
    ensures
        bytes_le(a, a),
{
    lemma_bytes_le_total(a, a);
}

/// One insertion-sort step keeps the growing prefix sorted: the group at `i`
/// moves to position `j`, right after the prefix groups whose keys do not
/// exceed its own.
proof fn lemma_insert_keeps_groups_sorted(before: Seq<Seq<Seq<char>>>, i: int, j: int)
    requires
        0 <= j <= i < before.len(),
        key_sorted(before.take(i)),
        forall|m: int|
            j <= m < i ==> bytes_lt(group_key(before[i]), group_key(#[trigger] before[m])),
        j > 0 ==> bytes_le(group_key(before[j - 1]), group_key(before[i])),
    ensures
        key_sorted(before.remove(i).insert(j, before[i]).take(i + 1)),
{
    let x = before[i];
    let after = before.remove(i).insert(j, x);
    before.remove_ensures(i);
    before.remove(i).insert_ensures(j, x);
    assert(forall|m: int| 0 <= m < j ==> #[trigger] after[m] == before[m]);
    assert(after[j] == x);
    assert forall|m: int| j < m <= i implies #[trigger] after[m] == before[m - 1] by {
        assert(before.remove(i)[m - 1] == before[m - 1]);
    }
    let pfx = after.take(i + 1);
    let p = before.take(i);
    assert forall|a: int, b: int|
        0 <= a < b < i + 1 implies bytes_le(
        group_key(#[trigger] pfx[a]),
        group_key(#[trigger] pfx[b]),
    ) by {
        assert(pfx[a] == after[a]);
        assert(pfx[b] == after[b]);
        assert(forall|m: int| 0 <= m < i ==> #[trigger] p[m] == before[m]);
        if a < j {
            if b < j {
                assert(bytes_le(group_key(p[a]), group_key(p[b])));
            } else if b == j {
                if a == j - 1 {
                    assert(bytes_le(group_key(before[j - 1]), group_key(x)));
                } else {
                    assert(bytes_le(group_key(p[a]), group_key(p[j - 1])));
                    lemma_bytes_le_transitive(
                        group_key(before[a]),
                        group_key(before[j - 1]),
                        group_key(x),
                    );
                }
            } else {
                assert(bytes_le(group_key(p[a]), group_key(p[b - 1])));
            }
        } else if a == j {
            assert(bytes_lt(group_key(x), group_key(before[b - 1])));
        } else {
            assert(bytes_le(group_key(p[a - 1]), group_key(p[b - 1])));
        }
    }
}

/// Sorts groups ascending by lead realm. The result is a rearrangement of the
/// input: same groups, same length.
#[verifier::rlimit(50)]
fn sort_groups(v: &mut Vec<Vec<String>>)
    requires
        forall|k: int| 0 <= k < old(v)@.len() ==> (#[trigger] old(v)@[k])@.len() >= 1,
    ensures
        final(v)@.len() == old(v)@.len(),
        final(v)@.to_multiset() == old(v)@.to_multiset(),
        key_sorted(groups_view(final(v)@)),
        forall|k: int| 0 <= k < final(v)@.len() ==> (#[trigger] final(v)@[k])@.len() >= 1,
{
    let ghost orig: Seq<Vec<String>> = v@;
    if v.len() == 0 {
        return ;
    }
    let mut i: usize = 1;
    while i < v.len()
        invariant
            1 <= i <= v@.len(),
            v@.len() == orig.len(),
            v@.to_multiset() == orig.to_multiset(),
            key_sorted(groups_view(v@).take(i as int)),
            forall|k: int| 0 <= k < v@.len() ==> (#[trigger] v@[k])@.len() >= 1,
        decreases v@.len() - i,
    {
        let ghost before: Seq<Vec<String>> = v@;
        let ghost gv: Seq<Seq<Seq<char>>> = groups_view(before);
        let mut j: usize = i;
        while j > 0 && !group_le(&v[j - 1], &v[i])
            invariant
                0 <= j <= i < v@.len(),
                v@ == before,
                gv == groups_view(before),
                forall|k: int| 0 <= k < v@.len() ==> (#[trigger] v@[k])@.len() >= 1,
                forall|m: int|
                    j <= m < i ==> bytes_lt(group_key(gv[i as int]), group_key(#[trigger] gv[m])),
            decreases j,
        {
            proof {
                // The key at `j - 1` is not at or below ours, so ours is
                // strictly below it.
                assert(gv[j - 1] == before[j - 1].deep_view());
                assert(gv[i as int] == before[i as int].deep_view());
                lemma_bytes_le_total(group_key(gv[j - 1]), group_key(gv[i as int]));
                if group_key(gv[i as int]) == group_key(gv[j - 1]) {
                    lemma_bytes_le_reflexive(group_key(gv[j - 1]));
                }
            }
            j = j - 1;
        }
        let g = v.remove(i);
        v.insert(j, g);
        proof {
            lemma_sort_step(before, i as int, j as int);
            assert(v@ == before.remove(i as int).insert(j as int, before[i as int]));
        }
        i = i + 1;
    }
    proof {
        assert(groups_view(v@).take(v@.len() as int) =~= groups_view(v@));
    }
}

/// One insertion-sort step of `sort_groups`, carried out on the sequence of
/// groups: the rearrangement keeps the groups, their non-emptiness, and leaves
/// the grown prefix sorted.
proof fn lemma_sort_step(before: Seq<Vec<String>>, i: int, j: int)
    requires
        0 <= j <= i < before.len(),
        key_sorted(groups_view(before).take(i)),
        forall|m: int|
            j <= m < i ==> bytes_lt(
                group_key(groups_view(before)[i]),
                group_key(#[trigger] groups_view(before)[m]),
            ),
        j > 0 ==> bytes_le(group_key(groups_view(before)[j - 1]), group_key(groups_view(before)[i])),
        forall|k: int| 0 <= k < before.len() ==> (#[trigger] before[k])@.len() >= 1,
    ensures
        before.remove(i).insert(j, before[i]).to_multiset() == before.to_multiset(),
        before.remove(i).insert(j, before[i]).len() == before.len(),
        key_sorted(groups_view(before.remove(i).insert(j, before[i])).take(i + 1)),
        forall|k: int|
            0 <= k < before.len() ==> (#[trigger] before.remove(i).insert(j, before[i])[k])@.len()
                >= 1,
{
    let gv = groups_view(before);
    before.remove_ensures(i);
    before.remove(i).insert_ensures(j, before[i]);
    lemma_remove_insert_multiset(before, i, j);
    let shuffled = before.remove(i).insert(j, before[i]);
    assert(groups_view(shuffled) =~= gv.remove(i).insert(j, gv[i])) by {
        gv.remove_ensures(i);
        gv.remove(i).insert_ensures(j, gv[i]);
        assert forall|m: int| 0 <= m < shuffled.len() implies #[trigger] groups_view(shuffled)[m]
            == gv.remove(i).insert(j, gv[i])[m] by {
            if m < j {
                assert(shuffled[m] == before[m]);
            } else if m == j {
                assert(shuffled[m] == before[i]);
            } else if m <= i {
                assert(shuffled[m] == before.remove(i)[m - 1]);
                assert(before.remove(i)[m - 1] == before[m - 1]);
                assert(gv.remove(i)[m - 1] == gv[m - 1]);
            } else {
                assert(shuffled[m] == before.remove(i)[m - 1]);
                assert(before.remove(i)[m - 1] == before[m]);
                assert(gv.remove(i)[m - 1] == gv[m]);
            }
        }
    }
    lemma_insert_keeps_groups_sorted(gv, i, j);
    assert forall|k: int| 0 <= k < before.len() implies (#[trigger] shuffled[k])@.len() >= 1 by {
        if k < j {
            assert(shuffled[k] == before[k]);
        } else if k == j {
            assert(shuffled[k] == before[i]);
        } else if k <= i {
            assert(shuffled[k] == before.remove(i)[k - 1]);
            assert(before.remove(i)[k - 1] == before[k - 1]);
        } else {
            assert(shuffled[k] == before.remove(i)[k - 1]);
            assert(before.remove(i)[k - 1] == before[k]);
        }
    }
}

/// Rearranging groups keeps the set of groups, the coherence of the whole, and
/// the non-emptiness of every group.
proof fn lemma_rearranged_groups(a: Seq<Vec<String>>, b: Seq<Vec<String>>)
    requires
        a.to_multiset() == b.to_multiset(),
    ensures
        groups_view(a).to_set() == groups_view(b).to_set(),
        lists_coherent(groups_view(a)) ==> lists_coherent(groups_view(b)),
        (forall|k: int| 0 <= k < a.len() ==> (#[trigger] a[k])@.len() >= 1) ==> (forall|k: int|
            0 <= k < b.len() ==> (#[trigger] b[k])@.len() >= 1),
{
    a.to_multiset_ensures();
    b.to_multiset_ensures();
    assert forall|k: int| #![trigger b[k]] 0 <= k < b.len() implies exists|m: int|
        0 <= m < a.len() && #[trigger] a[m] == b[k] by {
        assert(b.to_multiset().contains(b[k]));
        lemma_multiset_to_contains(a, b[k]);
    }
    assert forall|k: int| #![trigger a[k]] 0 <= k < a.len() implies exists|m: int|
        0 <= m < b.len() && #[trigger] b[m] == a[k] by {
        assert(a.to_multiset().contains(a[k]));
        lemma_multiset_to_contains(b, a[k]);
    }
    assert(groups_view(a).to_set() =~= groups_view(b).to_set()) by {
        assert forall|x: Seq<Seq<char>>|
            #[trigger] groups_view(a).to_set().contains(x) implies groups_view(b).to_set().contains(
            x,
        ) by {
            let k = choose|k: int| 0 <= k < a.len() && groups_view(a)[k] == x;
            let m = choose|m: int| 0 <= m < b.len() && b[m] == a[k];
            assert(groups_view(b)[m] == x);
        }
        assert forall|x: Seq<Seq<char>>|
            #[trigger] groups_view(b).to_set().contains(x) implies groups_view(a).to_set().contains(
            x,
        ) by {
            let k = choose|k: int| 0 <= k < b.len() && groups_view(b)[k] == x;
            let m = choose|m: int| 0 <= m < a.len() && a[m] == b[k];
            assert(groups_view(a)[m] == x);
        }
    }
    if lists_coherent(groups_view(a)) {
        assert forall|i: int, j: int|
            0 <= i < groups_view(b).len() && 0 <= j < groups_view(b).len() && group_key(
                #[trigger] groups_view(b)[i],
            ) == group_key(#[trigger] groups_view(b)[j]) implies groups_view(b)[i] == groups_view(
            b,
        )[j] by {
            let mi = choose|m: int| 0 <= m < a.len() && a[m] == b[i];
            let mj = choose|m: int| 0 <= m < a.len() && a[m] == b[j];
            assert(groups_view(a)[mi] == groups_view(b)[i]);
            assert(groups_view(a)[mj] == groups_view(b)[j]);
        }
    }
    if forall|k: int| 0 <= k < a.len() ==> (#[trigger] a[k])@.len() >= 1 {
        assert forall|k: int| 0 <= k < b.len() implies (#[trigger] b[k])@.len() >= 1 by {
            let m = choose|m: int| 0 <= m < a.len() && a[m] == b[k];
        }
    }
}

/// Appending the next distinct group keeps the dedup output's shape: ordered,
/// adjacent-distinct, covering exactly the groups seen so far, and strictly
/// ordered when the input is coherent.
proof fn lemma_dedup_push(sv: Seq<Seq<Seq<char>>>, ov: Seq<Seq<Seq<char>>>, i: int)
    requires
        0 <= i < sv.len(),
        key_sorted(sv),
        key_sorted(ov),
        forall|a: int| 0 <= a < ov.len() - 1 ==> (#[trigger] ov[a]) != ov[a + 1],
        i == 0 ==> ov.len() == 0,
        i > 0 ==> ov.len() >= 1 && ov.last() == sv[i - 1] && ov.last() != sv[i],
        ov.to_set() == sv.take(i).to_set(),
        lists_coherent(sv) ==> strictly_key_sorted(ov),
    ensures
        key_sorted(ov.push(sv[i])),
        forall|a: int|
            0 <= a < ov.push(sv[i]).len() - 1 ==> (#[trigger] ov.push(sv[i])[a]) != ov.push(
                sv[i],
            )[a + 1],
        ov.push(sv[i]).to_set() == sv.take(i + 1).to_set(),
        ov.push(sv[i]).last() == sv[i],
        lists_coherent(sv) ==> strictly_key_sorted(ov.push(sv[i])),
{
    let x = sv[i];
    let ov2 = ov.push(x);
    // Coverage: the pushed group is exactly the one the prefix gained.
    lemma_push_to_set(ov, x);
    lemma_push_to_set(sv.take(i), x);
    assert(sv.take(i).push(x) =~= sv.take(i + 1));
    assert(ov2.to_set() == sv.take(i + 1).to_set());
    // Every existing entry is an earlier input group, so its key is at most
    // the new entry's key.
    assert forall|a: int| 0 <= a < ov.len() implies bytes_le(
        group_key(#[trigger] ov[a]),
        group_key(x),
    ) by {
        assert(ov.to_set().contains(ov[a]));
        assert(sv.take(i).to_set().contains(ov[a]));
        let m = choose|m: int| 0 <= m < sv.take(i).len() && sv.take(i)[m] == ov[a];
        assert(sv[m] == ov[a]);
        if m < i {
            if group_key(sv[m]) == group_key(sv[i]) {
                lemma_bytes_le_reflexive(group_key(sv[m]));
            } else {
                assert(bytes_le(group_key(sv[m]), group_key(sv[i])));
            }
        }
    }
    assert forall|a: int, b: int|
        0 <= a < b < ov2.len() implies bytes_le(
        group_key(#[trigger] ov2[a]),
        group_key(#[trigger] ov2[b]),
    ) by {
        if b < ov.len() {
            assert(ov2[a] == ov[a]);
            assert(ov2[b] == ov[b]);
        } else {
            assert(ov2[a] == ov[a]);
            assert(ov2[b] == x);
        }
    }
    if lists_coherent(sv) {
        assert forall|a: int, b: int|
            0 <= a < b < ov2.len() implies bytes_lt(
            group_key(#[trigger] ov2[a]),
            group_key(#[trigger] ov2[b]),
        ) by {
            if b < ov.len() {
                assert(ov2[a] == ov[a]);
                assert(ov2[b] == ov[b]);
            } else {
                assert(ov2[a] == ov[a]);
                assert(ov2[b] == x);
                if group_key(ov[a]) == group_key(x) {
                    // Coherence would make the entry equal to the new group,
                    // which adjacency (or strictness) rules out.
                    assert(ov.to_set().contains(ov[a]));
                    assert(sv.take(i).to_set().contains(ov[a]));
                    let m = choose|m: int| 0 <= m < sv.take(i).len() && sv.take(i)[m] == ov[a];
                    assert(sv[m] == ov[a]);
                    assert(group_key(sv[m]) == group_key(sv[i]));
                    assert(ov[a] == x);
                    if a < ov.len() - 1 {
                        assert(bytes_lt(group_key(ov[a]), group_key(ov[ov.len() - 1])));
                        assert(bytes_le(group_key(ov[ov.len() - 1]), group_key(x)));
                        lemma_bytes_le_antisymmetric(group_key(ov[a]), group_key(ov[ov.len() - 1]));
                        assert(false);
                    } else {
                        assert(ov.last() == x);
                        assert(false);
                    }
                }
            }
        }
    }
}

/// Skipping a group equal to the last kept one leaves the coverage unchanged.
proof fn lemma_dedup_skip(sv: Seq<Seq<Seq<char>>>, ov: Seq<Seq<Seq<char>>>, i: int)
    requires
        0 <= i < sv.len(),
        ov.len() >= 1,
        ov.last() == sv[i],
        ov.to_set() == sv.take(i).to_set(),
    ensures
        ov.to_set() == sv.take(i + 1).to_set(),
{
    lemma_push_to_set(sv.take(i), sv[i]);
    assert(sv.take(i).push(sv[i]) =~= sv.take(i + 1));
    assert(ov.to_set().contains(ov[ov.len() - 1]));
    assert(ov.to_set() =~= sv.take(i + 1).to_set());
}

/// Groups realms into connected-realm sets: takes each realm's
/// `connected_realms` list verbatim, sorts the lists by their first element
/// (the lead realm), and removes adjacent duplicates.
///
/// Unconditionally the result holds exactly the distinct lists of the input,
/// ordered by lead realm. Upstream data is assumed to list a group's members
/// in the same order for every member realm (`lists_coherent`); under that
/// assumption the result is strictly ordered and therefore canonical — see
/// `lemma_grouping_canonical` — which makes grouping idempotent and
/// independent of the order of its input.
pub fn process_connected_realms(realm_infos: &Vec<RealmInfo>) -> (r: Vec<Vec<String>>)
    requires
        forall|i: int|
            0 <= i < realm_infos@.len() ==> (#[trigger] realm_infos@[i]).connected_realms@.len()
                >= 1,
    ensures
        grouping_post(realm_lists(realm_infos@), r.deep_view()),
{
    let ghost lists: Seq<Seq<Seq<char>>> = realm_lists(realm_infos@);
    // Copy out the connected-realm lists.
    let mut sets: Vec<Vec<String>> = Vec::new();
    let mut i: usize = 0;
    while i < realm_infos.len()
        invariant
            0 <= i <= realm_infos@.len(),
            lists == realm_lists(realm_infos@),
            forall|k: int|
                0 <= k < realm_infos@.len() ==> (
                #[trigger] realm_infos@[k]).connected_realms@.len() >= 1,
            sets@.len() == i,
            forall|k: int| 0 <= k < i ==> (#[trigger] sets@[k]).deep_view() == lists[k],
            forall|k: int| 0 <= k < i ==> (#[trigger] sets@[k])@.len() >= 1,
        decreases realm_infos@.len() - i,
    {
        let g = clone_group(&realm_infos[i].connected_realms);
        proof {
            assert(lists[i as int] == realm_infos@[i as int].connected_realms.deep_view());
            assert(g@.len() == realm_infos@[i as int].connected_realms@.len());
        }
        sets.push(g);
        i = i + 1;
    }
    proof {
        assert(groups_view(sets@) =~= lists);
    }
    // Sort the lists by lead realm.
    let ghost filled: Seq<Vec<String>> = sets@;
    sort_groups(&mut sets);
    proof {
        lemma_rearranged_groups(filled, sets@);
    }
    // Remove adjacent duplicates.
    let ghost sorted_s: Seq<Vec<String>> = sets@;
    let mut out: Vec<Vec<String>> = Vec::new();
    let mut n: usize = 0;
    while n < sets.len()
        invariant
            0 <= n <= sets@.len(),
            sets@ == sorted_s,
            key_sorted(groups_view(sorted_s)),
            forall|k: int| 0 <= k < sorted_s.len() ==> (#[trigger] sorted_s[k])@.len() >= 1,
            n == 0 ==> out@.len() == 0,
            n > 0 ==> out@.len() >= 1 && groups_view(out@).last() == groups_view(sorted_s)[n - 1],
            groups_view(out@).to_set() == groups_view(sorted_s).take(n as int).to_set(),
            key_sorted(groups_view(out@)),
            forall|a: int|
                0 <= a < out@.len() - 1 ==> (#[trigger] groups_view(out@)[a]) != groups_view(
                    out@,
                )[a + 1],
            forall|k: int| 0 <= k < out@.len() ==> (#[trigger] out@[k])@.len() >= 1,
            lists_coherent(groups_view(sorted_s)) ==> strictly_key_sorted(groups_view(out@)),
        decreases sets@.len() - n,
    {
        let ghost sv: Seq<Seq<Seq<char>>> = groups_view(sorted_s);
        let ghost ov: Seq<Seq<Seq<char>>> = groups_view(out@);
        let mut keep = true;
        if out.len() > 0 {
            let li = out.len() - 1;
            if groups_equal(&out[li], &sets[n]) {
                keep = false;
            }
        }
        proof {
            assert(sv[n as int] == sorted_s[n as int].deep_view());
            if out@.len() > 0 {
                assert(ov.last() == out@[out@.len() - 1].deep_view());
            }
        }
        if keep {
            let g = clone_group(&sets[n]);
            out.push(g);
            proof {
                lemma_dedup_push(sv, ov, n as int);
                assert(groups_view(out@) =~= ov.push(sv[n as int]));
            }
        } else {
            proof {
                lemma_dedup_skip(sv, ov, n as int);
            }
        }
        n = n + 1;
    }
    proof {
        assert(groups_view(sorted_s).take(sorted_s.len() as int) =~= groups_view(sorted_s));
        assert(out.deep_view() =~= groups_view(out@));
    }
    out
}

} // verus!
