//! The frequency analyzer: read-only statistics over an entry collection.
//! Commands (or their first tokens) are grouped, counted, and ranked by
//! descending count with ascending lexicographic order as the tie-break, so
//! the ranking is fully deterministic.
use crate::dates::{current_local_date, valid_date, Date};
use crate::entry::HistoryEntry;
use crate::history::{spec_dup_count, spec_range_fold, EntryModel, History};
use crate::text::{
    chars_of, is_space, is_space_char, lemma_lex_connex, lemma_lex_transitive, lex_lt,
};
use vstd::multiset::Multiset;
use vstd::prelude::*;

verus! {

/// How often `c` occurs in `ks`.
pub open spec fn count_of(ks: Seq<Seq<char>>, c: Seq<char>) -> nat
    decreases ks.len(),
{
    if ks.len() == 0 {
        0
    } else {
        count_of(ks.drop_last(), c) + if ks.last() == c {
            1nat
        } else {
            0nat
        }
    }
}

/// The number of distinct values in `ks`.
pub open spec fn num_distinct(ks: Seq<Seq<char>>) -> nat
    decreases ks.len(),
{
    if ks.len() == 0 {
        0
    } else {
        num_distinct(ks.drop_last()) + if ks.drop_last().contains(ks.last()) {
            0nat
        } else {
            1nat
        }
    }
}

/// The ranking order on (key, count) pairs: higher counts first, and among
/// equal counts the lexicographically smaller key first.  A strict order on
/// pairs with distinct keys.
pub open spec fn rank_before(c1: Seq<char>, n1: nat, c2: Seq<char>, n2: nat) -> bool {
    n1 > n2 || (n1 == n2 && lex_lt(c1, c2))
}

/// The spec-level view of a vector of (key, count) pairs.
pub open spec fn view_pairs(r: Seq<(String, usize)>) -> Seq<(Seq<char>, nat)> {
    r.map_values(|p: (String, usize)| (p.0@, p.1 as nat))
}

/// What it means for `rm` to be the top-`n` ranking of the keys `ks`: as
/// many pairs as there are distinct keys, up to `n`; every pair carries a
/// key of `ks` with its exact count; the pairs descend strictly in ranking
/// order; and no omitted key ranks before a listed pair.  Exactly one
/// sequence satisfies this.
pub open spec fn is_ranking(ks: Seq<Seq<char>>, n: nat, rm: Seq<(Seq<char>, nat)>) -> bool {
    &&& rm.len() == (if n <= num_distinct(ks) {
        n
    } else {
        num_distinct(ks)
    })
    &&& forall|i: int|
        0 <= i < rm.len() ==> ks.contains((#[trigger] rm[i]).0) && rm[i].1 == count_of(
            ks,
            rm[i].0,
        )
    &&& forall|i: int, j: int|
        0 <= i < j < rm.len() ==> rank_before(
            (#[trigger] rm[i]).0,
            rm[i].1,
            (#[trigger] rm[j]).0,
            rm[j].1,
        )
    &&& forall|c: Seq<char>|
        #[trigger] ks.contains(c) && (forall|i: int| 0 <= i < rm.len() ==> (#[trigger] rm[i]).0
            != c) ==> forall|i: int|
            0 <= i < rm.len() ==> rank_before((#[trigger] rm[i]).0, rm[i].1, c, count_of(ks, c))
}

/// Two pairs with different keys are comparable in ranking order.
proof fn lemma_rank_connex(c1: Seq<char>, n1: nat, c2: Seq<char>, n2: nat)
    requires
        c1 != c2,
    ensures
        rank_before(c1, n1, c2, n2) || rank_before(c2, n2, c1, n1),
{
    if n1 == n2 {
        lemma_lex_connex(c1, c2);
    }
}

/// The ranking order is asymmetric: no two pairs rank before each other.
proof fn lemma_rank_asym(c1: Seq<char>, n1: nat, c2: Seq<char>, n2: nat)
    requires
        rank_before(c1, n1, c2, n2),
    ensures
        !rank_before(c2, n2, c1, n1),
{
    if n1 == n2 {
        crate::text::lemma_lex_asymmetric(c1, c2);
    }
}

/// The ranking order is transitive.
proof fn lemma_rank_trans(
    c1: Seq<char>,
    n1: nat,
    c2: Seq<char>,
    n2: nat,
    c3: Seq<char>,
    n3: nat,
)
    requires
        rank_before(c1, n1, c2, n2),
        rank_before(c2, n2, c3, n3),
    ensures
        rank_before(c1, n1, c3, n3),
{
    if n1 == n2 && n2 == n3 {
        lemma_lex_transitive(c1, c2, c3);
    }
}

/// Finds the position of `key` among the pair keys, if it is there.
fn find_key(counts: &Vec<(String, usize)>, key: &String) -> (r: Option<usize>)
    ensures
        r matches Some(idx) ==> idx < counts@.len() && counts@[idx as int].0@ == key@,
        r is None ==> forall|i: int| 0 <= i < counts@.len() ==> (#[trigger] counts@[i]).0@ != key@,
{
    let mut i: usize = 0;
    while i < counts.len()
        invariant
            i <= counts@.len(),
            forall|k: int| 0 <= k < i ==> (#[trigger] counts@[k]).0@ != key@,
        decreases counts@.len() - i,
    {
        if counts[i].0 == *key {
            return Some(i);
        }
        i = i + 1;
    }
    None
}

/// Counts the occurrences of every distinct key, in order of first
/// appearance.
fn count_keys(keys: &Vec<String>) -> (counts: Vec<(String, usize)>)
    ensures
        counts@.len() == num_distinct(keys@.map_values(|k: String| k@)),
        forall|i: int|
            0 <= i < counts@.len() ==> keys@.map_values(|k: String| k@).contains(
                (#[trigger] counts@[i]).0@,
            ) && counts@[i].1 as nat == count_of(
                keys@.map_values(|k: String| k@),
                counts@[i].0@,
            ),
        forall|i: int, j: int|
            0 <= i < j < counts@.len() ==> (#[trigger] counts@[i]).0@ != (
            #[trigger] counts@[j]).0@,
        forall|k: int|
            0 <= k < keys@.len() ==> exists|i: int|
                0 <= i < counts@.len() && (#[trigger] counts@[i]).0@ == (#[trigger] keys@[k])@,
{
    let ghost km = keys@.map_values(|k: String| k@);
    let mut counts: Vec<(String, usize)> = Vec::new();
    let mut i: usize = 0;
    proof {
        assert(km.take(0) =~= Seq::<Seq<char>>::empty());
    }
    while i < keys.len()
        invariant
            km == keys@.map_values(|k: String| k@),
            i <= km.len(),
            counts@.len() == num_distinct(km.take(i as int)),
            forall|p: int|
                0 <= p < counts@.len() ==> km.take(i as int).contains((#[trigger] counts@[p]).0@)
                    && counts@[p].1 as nat == count_of(km.take(i as int), counts@[p].0@)
                    && counts@[p].1 >= 1 && counts@[p].1 <= i,
            forall|p: int, q: int|
                0 <= p < q < counts@.len() ==> (#[trigger] counts@[p]).0@ != (
                #[trigger] counts@[q]).0@,
            forall|k: int|
                0 <= k < i ==> exists|p: int|
                    0 <= p < counts@.len() && (#[trigger] counts@[p]).0@ == #[trigger] km[k],
        decreases km.len() - i,
    {
        let ghost prefix = km.take(i as int);
        let ghost prefix1 = km.take(i as int + 1);
        proof {
            assert(prefix1.drop_last() =~= prefix);
            assert(prefix1.last() == km[i as int]);
            assert(km[i as int] == keys@[i as int]@);
            // Counts of every key move forward by at most the new element.
            assert(forall|c: Seq<char>|
                count_of(prefix1, c) == count_of(prefix, c) + (if km[i as int] == c {
                    1nat
                } else {
                    0nat
                }));
        }
        proof {
            assert forall|c: Seq<char>| prefix.contains(c) implies prefix1.contains(c) by {
                let w = choose|k: int| 0 <= k < prefix.len() && prefix[k] == c;
                assert(prefix1[w] == prefix[w]);
            }
            assert forall|c: Seq<char>| prefix1.contains(c) implies (prefix.contains(c) || c
                == km[i as int]) by {
                let w = choose|k: int| 0 <= k < prefix1.len() && prefix1[k] == c;
                if w < prefix.len() {
                    assert(prefix[w] == c);
                }
            }
        }
        match find_key(&counts, &keys[i]) {
            Some(idx) => {
                let ghost oldc = counts@;
                proof {
                    assert(oldc[idx as int].0@ == km[i as int]);
                    assert(prefix.contains(km[i as int]));
                    assert(num_distinct(prefix1) == num_distinct(prefix));
                }
                let pair = counts.remove(idx);
                let bumped = (pair.0, pair.1 + 1);
                counts.insert(idx, bumped);
                proof {
                    assert(counts@.len() == oldc.len());
                    assert forall|p: int| 0 <= p < counts@.len() && p != idx implies counts@[p]
                        == oldc[p] by {
                        if p < idx {
                            assert(oldc.remove(idx as int)[p] == oldc[p]);
                        } else {
                            assert(oldc.remove(idx as int)[p - 1] == oldc[p]);
                        }
                    }
                    assert(counts@[idx as int].0@ == km[i as int]);
                    assert(counts@[idx as int].1 == oldc[idx as int].1 + 1);
                    assert forall|k: int| 0 <= k < i + 1 implies exists|p: int|
                        0 <= p < counts@.len() && (#[trigger] counts@[p]).0@ == #[trigger] km[k] by {
                        if k < i {
                            let p = choose|p: int|
                                0 <= p < oldc.len() && (#[trigger] oldc[p]).0@ == km[k];
                            assert(counts@[p].0@ == km[k]);
                        } else {
                            assert(counts@[idx as int].0@ == km[k]);
                        }
                    }
                }
            },
            None => {
                let ghost oldc = counts@;
                proof {
                    assert(!prefix.contains(km[i as int])) by {
                        if prefix.contains(km[i as int]) {
                            let w = choose|p: int|
                                0 <= p < counts@.len() && counts@[p].0@ == km[i as int];
                            assert(counts@[w].0@ == km[i as int]);
                        }
                    }
                    assert(num_distinct(prefix1) == num_distinct(prefix) + 1);
                    assert(count_of(prefix, km[i as int]) == 0) by {
                        lemma_count_zero_of_absent(prefix, km[i as int]);
                    }
                }
                counts.push((keys[i].clone(), 1));
                proof {
                    assert(counts@.last().0@ == km[i as int]);
                    assert forall|k: int| 0 <= k < i + 1 implies exists|p: int|
                        0 <= p < counts@.len() && (#[trigger] counts@[p]).0@ == #[trigger] km[k] by {
                        if k < i {
                            let p = choose|p: int|
                                0 <= p < oldc.len() && (#[trigger] oldc[p]).0@ == km[k];
                            assert(counts@[p] == oldc[p]);
                            assert(counts@[p].0@ == km[k]);
                        } else {
                            assert(counts@[counts@.len() - 1].0@ == km[k]);
                        }
                    }
                }
            },
        }
        i = i + 1;
    }
    proof {
        assert(km.take(km.len() as int) =~= km);
        assert forall|k: int| 0 <= k < keys@.len() implies exists|p: int|
            0 <= p < counts@.len() && (#[trigger] counts@[p]).0@ == (#[trigger] keys@[k])@ by {
            assert(km[k] == keys@[k]@);
            let p = choose|p: int| 0 <= p < counts@.len() && (#[trigger] counts@[p]).0@ == km[k];
            assert(counts@[p].0@ == keys@[k]@);
        }
    }
    counts
}

/// Compares two (key, count) pairs in ranking order.
fn pair_rank_before(a: &(String, usize), b: &(String, usize)) -> (r: bool)
    ensures
        r == rank_before(a.0@, a.1 as nat, b.0@, b.1 as nat),
{
    if a.1 > b.1 {
        true
    } else if a.1 == b.1 {
        let av = chars_of(a.0.as_str());
        let bv = chars_of(b.0.as_str());
        crate::text::lex_less(&av, &bv)
    } else {
        false
    }
}

/// Sorts (key, count) pairs into ranking order by repeatedly extracting
/// the first-ranked remaining pair.
fn sort_pairs(pairs: Vec<(String, usize)>) -> (sorted: Vec<(String, usize)>)
    requires
        forall|i: int, j: int|
            0 <= i < j < pairs@.len() ==> (#[trigger] pairs@[i]).0@ != (#[trigger] pairs@[j]).0@,
    ensures
        sorted@.len() == pairs@.len(),
        view_pairs(sorted@).to_multiset() == view_pairs(pairs@).to_multiset(),
        forall|i: int, j: int|
            0 <= i < j < sorted@.len() ==> rank_before(
                (#[trigger] sorted@[i]).0@,
                sorted@[i].1 as nat,
                (#[trigger] sorted@[j]).0@,
                sorted@[j].1 as nat,
            ),
{
    broadcast use vstd::seq_lib::group_to_multiset_ensures;
    broadcast use vstd::multiset::group_multiset_axioms;

    let ghost total = view_pairs(pairs@).to_multiset();
    let mut rest = pairs;
    let mut sorted: Vec<(String, usize)> = Vec::new();
    proof {
        assert(view_pairs(sorted@) =~= Seq::<(Seq<char>, nat)>::empty());
        assert(view_pairs(sorted@).to_multiset().add(view_pairs(rest@).to_multiset()) =~= total);
    }
    while rest.len() > 0
        invariant
            sorted@.len() + rest@.len() == total.len(),
            view_pairs(sorted@).to_multiset().add(view_pairs(rest@).to_multiset()) == total,
            forall|i: int, j: int|
                0 <= i < j < rest@.len() ==> (#[trigger] rest@[i]).0@ != (#[trigger] rest@[j]).0@,
            forall|i: int, j: int|
                0 <= i < sorted@.len() && 0 <= j < rest@.len() ==> (#[trigger] sorted@[i]).0@ != (
                #[trigger] rest@[j]).0@,
            forall|i: int, j: int|
                0 <= i < j < sorted@.len() ==> rank_before(
                    (#[trigger] sorted@[i]).0@,
                    sorted@[i].1 as nat,
                    (#[trigger] sorted@[j]).0@,
                    sorted@[j].1 as nat,
                ),
            forall|i: int, j: int|
                0 <= i < sorted@.len() && 0 <= j < rest@.len() ==> rank_before(
                    (#[trigger] sorted@[i]).0@,
                    sorted@[i].1 as nat,
                    (#[trigger] rest@[j]).0@,
                    rest@[j].1 as nat,
                ),
        decreases rest@.len(),
    {
        // Find the first-ranked remaining pair.
        let mut best: usize = 0;
        let mut k: usize = 1;
        while k < rest.len()
            invariant
                rest@.len() > 0,
                best < k <= rest@.len(),
                forall|i: int, j: int|
                    0 <= i < j < rest@.len() ==> (#[trigger] rest@[i]).0@ != (
                    #[trigger] rest@[j]).0@,
                forall|q: int|
                    0 <= q < k && q != best ==> rank_before(
                        rest@[best as int].0@,
                        rest@[best as int].1 as nat,
                        (#[trigger] rest@[q]).0@,
                        rest@[q].1 as nat,
                    ),
            decreases rest@.len() - k,
        {
            if pair_rank_before(&rest[k], &rest[best]) {
                proof {
                    let old_best = best as int;
                    assert forall|q: int| 0 <= q < k + 1 && q != k implies rank_before(
                        rest@[k as int].0@,
                        rest@[k as int].1 as nat,
                        (#[trigger] rest@[q]).0@,
                        rest@[q].1 as nat,
                    ) by {
                        if q != old_best {
                            lemma_rank_trans(
                                rest@[k as int].0@,
                                rest@[k as int].1 as nat,
                                rest@[old_best].0@,
                                rest@[old_best].1 as nat,
                                rest@[q].0@,
                                rest@[q].1 as nat,
                            );
                        }
                    }
                }
                best = k;
            } else {
                proof {
                    lemma_rank_connex(
                        rest@[best as int].0@,
                        rest@[best as int].1 as nat,
                        rest@[k as int].0@,
                        rest@[k as int].1 as nat,
                    );
                }
            }
            k = k + 1;
        }
        let ghost old_rest = rest@;
        let ghost old_sorted = sorted@;
        let p = rest.remove(best);
        sorted.push(p);
        proof {
            assert(sorted@.last() == old_rest[best as int]);
            // The multiset moves one pair from `rest` to `sorted`.
            assert(view_pairs(rest@) =~= view_pairs(old_rest).remove(best as int));
            assert(view_pairs(sorted@) =~= view_pairs(old_sorted).push(
                view_pairs(old_rest)[best as int],
            ));
            let vr = view_pairs(old_rest);
            let x = vr[best as int];
            vr.to_multiset_ensures();
            view_pairs(old_sorted).to_multiset_ensures();
            assert(vr.contains(x));
            assert(vr.to_multiset().count(x) > 0);
            assert(vr.remove(best as int).to_multiset() == vr.to_multiset().remove(x));
            assert(view_pairs(rest@).to_multiset() == vr.to_multiset().remove(x));
            assert(view_pairs(old_sorted).push(x).to_multiset() == view_pairs(
                old_sorted,
            ).to_multiset().insert(x));
            assert(view_pairs(sorted@).to_multiset() == view_pairs(old_sorted).to_multiset().insert(
                x,
            ));
            assert(view_pairs(sorted@).to_multiset().add(view_pairs(rest@).to_multiset())
                =~= total);
            // Every element of the new rest is an element of the old one.
            assert forall|j: int| 0 <= j < rest@.len() implies exists|q: int|
                0 <= q < old_rest.len() && q != best && (#[trigger] rest@[j]) == old_rest[q] by {
                if j < best {
                    assert(rest@[j] == old_rest[j]);
                } else {
                    assert(rest@[j] == old_rest[j + 1]);
                }
            }
        }
    }
    proof {
        assert(view_pairs(rest@) =~= Seq::<(Seq<char>, nat)>::empty());
        assert(view_pairs(rest@).to_multiset() =~= Multiset::<(Seq<char>, nat)>::empty());
        assert(view_pairs(sorted@).to_multiset() =~= total);
        assert(sorted@.len() == view_pairs(sorted@).to_multiset().len());
    }
    sorted
}

/// Groups the keys, counts each distinct value, and returns the `n`
/// first-ranked (key, count) pairs: descending count, ascending
/// lexicographic key order among equal counts.
pub fn ranked_counts(keys: &Vec<String>, n: usize) -> (r: Vec<(String, usize)>)
    ensures
        is_ranking(keys@.map_values(|k: String| k@), n as nat, view_pairs(r@)),
{
    broadcast use vstd::seq_lib::group_to_multiset_ensures;

    let ghost km = keys@.map_values(|k: String| k@);
    let counts = count_keys(keys);
    let ghost cm = view_pairs(counts@);
    let mut sorted = sort_pairs(counts);
    let ghost full = view_pairs(sorted@);
    proof {
        // Each sorted pair equals some counted pair, so it carries an
        // exact count; and each counted pair appears among the sorted.
        assert forall|i: int| 0 <= i < full.len() implies km.contains((#[trigger] full[i]).0)
            && full[i].1 == count_of(km, full[i].0) by {
            assert(full.to_multiset().contains(full[i]));
            assert(cm.to_multiset().contains(full[i]));
            assert(cm.contains(full[i]));
            let q = choose|q: int| 0 <= q < cm.len() && cm[q] == full[i];
            assert(cm[q].0 == counts@[q].0@);
        }
        assert forall|q: int| 0 <= q < cm.len() implies exists|m: int|
            0 <= m < full.len() && #[trigger] full[m] == #[trigger] cm[q] by {
            assert(cm.to_multiset().contains(cm[q]));
            assert(full.to_multiset().contains(cm[q]));
            assert(full.contains(cm[q]));
        }
    }
    sorted.truncate(n);
    let ghost rm = view_pairs(sorted@);
    proof {
        if n <= full.len() {
            assert(sorted@.len() == n);
        }
        assert(rm =~= full.take(rm.len() as int));
        assert forall|i: int| 0 <= i < rm.len() implies km.contains((#[trigger] rm[i]).0)
            && rm[i].1 == count_of(km, rm[i].0) by {
            assert(rm[i] == full[i]);
        }
        assert forall|i: int, j: int| 0 <= i < j < rm.len() implies rank_before(
            (#[trigger] rm[i]).0,
            rm[i].1,
            (#[trigger] rm[j]).0,
            rm[j].1,
        ) by {
            assert(rm[i] == full[i]);
            assert(rm[j] == full[j]);
        }
        // Completeness: every key missing from the result ranks after
        // everything listed.
        assert forall|c: Seq<char>|
            #[trigger] km.contains(c) && (forall|i: int|
                0 <= i < rm.len() ==> (#[trigger] rm[i]).0 != c) implies (forall|i: int|
                0 <= i < rm.len() ==> rank_before(
                    (#[trigger] rm[i]).0,
                    rm[i].1,
                    c,
                    count_of(km, c),
                )) by {
            let k = choose|k: int| 0 <= k < km.len() && km[k] == c;
            assert(km[k] == keys@[k]@);
            let q = choose|q: int|
                0 <= q < counts@.len() && (#[trigger] counts@[q]).0@ == keys@[k]@;
            assert(cm[q].0 == c);
            assert(cm[q].1 == count_of(km, c));
            let m = choose|m: int| 0 <= m < full.len() && (#[trigger] full[m]) == cm[q];
            assert(m >= rm.len()) by {
                if m < rm.len() {
                    assert(rm[m] == full[m]);
                }
            }
            assert forall|i: int| 0 <= i < rm.len() implies rank_before(
                (#[trigger] rm[i]).0,
                rm[i].1,
                c,
                count_of(km, c),
            ) by {
                assert(rm[i] == full[i]);
                assert(rank_before(full[i].0, full[i].1, full[m].0, full[m].1));
            }
        }
        assert(is_ranking(km, n as nat, rm));
    }
    sorted
}

/// The first position at or after `i` whose character is not whitespace,
/// or the length of `c` when only whitespace remains.
pub open spec fn first_nonspace_from(c: Seq<char>, i: int) -> int
    recommends
        0 <= i <= c.len(),
    decreases c.len() - i,
{
    if i < 0 || i >= c.len() {
        c.len() as int
    } else if !is_space_char(c[i]) {
        i
    } else {
        first_nonspace_from(c, i + 1)
    }
}

/// The first position at or after `i` holding whitespace, or the length of
/// `c` when none follows.
pub open spec fn next_space_from(c: Seq<char>, i: int) -> int
    recommends
        0 <= i <= c.len(),
    decreases c.len() - i,
{
    if i < 0 || i >= c.len() {
        c.len() as int
    } else if is_space_char(c[i]) {
        i
    } else {
        next_space_from(c, i + 1)
    }
}

/// Whether the command has a first whitespace-delimited token: it is not
/// empty or whitespace-only.
pub open spec fn has_token(c: Seq<char>) -> bool {
    first_nonspace_from(c, 0) < c.len()
}

/// The first whitespace-delimited token of the command: the invoked
/// program name.
pub open spec fn first_token(c: Seq<char>) -> Seq<char> {
    c.subrange(first_nonspace_from(c, 0), next_space_from(c, first_nonspace_from(c, 0)))
}

/// The first tokens of the commands of `s[i..]`; commands without a token
/// contribute nothing.
pub open spec fn binaries_of(s: Seq<EntryModel>, i: int) -> Seq<Seq<char>>
    recommends
        0 <= i <= s.len(),
    decreases s.len() - i,
{
    if i < 0 || i >= s.len() {
        Seq::empty()
    } else if has_token(s[i].command) {
        seq![first_token(s[i].command)] + binaries_of(s, i + 1)
    } else {
        binaries_of(s, i + 1)
    }
}

/// Extracts the first whitespace-delimited token of a command, if any.
fn first_token_of(s: &str) -> (r: Option<String>)
    ensures
        has_token(s@) ==> (r matches Some(t) && t@ == first_token(s@)),
        !has_token(s@) ==> r is None,
{
    let v = chars_of(s);
    let n = v.len();
    let mut a: usize = 0;
    while a < n && is_space(v[a])
        invariant
            v@ == s@,
            n == s@.len(),
            a <= n,
            first_nonspace_from(s@, 0) == first_nonspace_from(s@, a as int),
        decreases n - a,
    {
        a = a + 1;
    }
    proof {
        assert(first_nonspace_from(s@, 0) == a as int);
    }
    if a >= n {
        return None;
    }
    let mut b: usize = a;
    while b < n && !is_space(v[b])
        invariant
            v@ == s@,
            n == s@.len(),
            a <= b <= n,
            next_space_from(s@, a as int) == next_space_from(s@, b as int),
        decreases n - b,
    {
        b = b + 1;
    }
    proof {
        assert(next_space_from(s@, a as int) == b as int);
    }
    let t = s.substring_char(a, b).to_owned();
    proof {
        assert(t@ =~= first_token(s@));
    }
    Some(t)
}

/// The command of every entry, as owned strings.
fn commands_vec(entries: &Vec<HistoryEntry>) -> (r: Vec<String>)
    ensures
        r@.map_values(|k: String| k@) == entries@.map_values(|e: HistoryEntry| e@).map_values(
            |m: EntryModel| m.command,
        ),
{
    let ghost cs = entries@.map_values(|e: HistoryEntry| e@).map_values(
        |m: EntryModel| m.command,
    );
    let mut out: Vec<String> = Vec::new();
    let mut i: usize = 0;
    proof {
        assert(out@.map_values(|k: String| k@) =~= cs.take(0));
    }
    while i < entries.len()
        invariant
            cs == entries@.map_values(|e: HistoryEntry| e@).map_values(|m: EntryModel| m.command),
            i <= entries@.len(),
            out@.map_values(|k: String| k@) == cs.take(i as int),
        decreases entries@.len() - i,
    {
        out.push(entries[i].command.clone());
        proof {
            assert(out@.map_values(|k: String| k@) =~= out@.drop_last().map_values(
                |k: String| k@,
            ).push(out@.last()@));
            assert(cs.take(i as int + 1).drop_last() =~= cs.take(i as int));
            assert(cs.take(i as int + 1).last() == cs[i as int]);
            assert(cs[i as int] == entries@[i as int]@.command);
            assert(out@.map_values(|k: String| k@) =~= cs.take(i as int + 1));
        }
        i = i + 1;
    }
    proof {
        assert(cs.take(cs.len() as int) =~= cs);
    }
    out
}

/// The first token of every entry's command, skipping commands without
/// one.
fn binaries_vec(entries: &Vec<HistoryEntry>) -> (r: Vec<String>)
    ensures
        r@.map_values(|k: String| k@) == binaries_of(
            entries@.map_values(|e: HistoryEntry| e@),
            0,
        ),
{
    let ghost s = entries@.map_values(|e: HistoryEntry| e@);
    let mut out: Vec<String> = Vec::new();
    let mut i: usize = 0;
    proof {
        assert(out@.map_values(|k: String| k@) + binaries_of(s, 0) =~= binaries_of(s, 0));
    }
    while i < entries.len()
        invariant
            s == entries@.map_values(|e: HistoryEntry| e@),
            i <= s.len(),
            binaries_of(s, 0) == out@.map_values(|k: String| k@) + binaries_of(s, i as int),
        decreases s.len() - i,
    {
        proof {
            assert(s[i as int] == entries@[i as int]@);
        }
        match first_token_of(entries[i].command.as_str()) {
            Some(t) => {
                out.push(t);
                proof {
                    assert(out@.map_values(|k: String| k@) =~= out@.drop_last().map_values(
                        |k: String| k@,
                    ).push(out@.last()@));
                    assert(binaries_of(s, 0) =~= out@.map_values(|k: String| k@) + binaries_of(
                        s,
                        i as int + 1,
                    ));
                }
            },
            None => {
                proof {
                    assert(binaries_of(s, 0) =~= out@.map_values(|k: String| k@) + binaries_of(
                        s,
                        i as int + 1,
                    ));
                }
            },
        }
        i = i + 1;
    }
    proof {
        assert(binaries_of(s, s.len() as int) == Seq::<Seq<char>>::empty());
        assert(out@.map_values(|k: String| k@) =~= binaries_of(s, 0));
    }
    out
}

impl History {
    /// The `n` most frequent commands with their counts, most frequent
    /// first, ties broken by ascending lexicographic command order.  `n`
    /// of zero or an empty history yields an empty result.
    pub fn top_n_commands(&self, n: usize) -> (r: Vec<(String, usize)>)
        ensures
            is_ranking(self@.map_values(|m: EntryModel| m.command), n as nat, view_pairs(r@)),
    {
        let keys = commands_vec(&self.entries);
        ranked_counts(&keys, n)
    }

    /// The `n` most frequent binaries — first tokens of the commands —
    /// with their counts, ranked like `top_n_commands`.
    pub fn top_n_binaries(&self, n: usize) -> (r: Vec<(String, usize)>)
        ensures
            is_ranking(binaries_of(self@, 0), n as nat, view_pairs(r@)),
    {
        let keys = binaries_vec(&self.entries);
        ranked_counts(&keys, n)
    }

    /// Analyzes the history: its size, the span of its dates (today when
    /// no entry has one), and the ten most frequent commands and binaries.
    pub fn analyze_by_time(&self) -> (r: HistoryAnalysis)
        ensures
            r.filename@ == self.filename@,
            r.size == self@.len(),
            valid_date(r.date_range.0),
            valid_date(r.date_range.1),
            exists|ds: Seq<Option<Date>>|
                #![trigger spec_range_fold(ds, 0, Option::None)]
                ds.len() == self@.len() && (forall|j: int|
                    0 <= j < ds.len() ==> ((#[trigger] ds[j]) matches Some(d) ==> valid_date(d)))
                    && (match spec_range_fold(ds, 0, Option::None) {
                    Option::Some(pair) => r.date_range == pair,
                    Option::None => r.date_range.0 == r.date_range.1,
                }),
            is_ranking(self@.map_values(|m: EntryModel| m.command), 10, view_pairs(
                r.top_n_commands@,
            )),
            is_ranking(binaries_of(self@, 0), 10, view_pairs(r.top_n_binaries@)),
    {
        let analyzer = HistoryAnalyzer::new(self);
        analyzer.analyze(10)
    }
}

/// Read-only statistics over a history.
pub struct HistoryAnalyzer<'a> {
    /// The history under analysis.
    pub history: &'a History,
}

impl<'a> HistoryAnalyzer<'a> {
    /// Creates an analyzer for the given history.
    pub fn new(history: &'a History) -> (r: HistoryAnalyzer<'a>)
        ensures
            r.history == history,
    {
        HistoryAnalyzer { history }
    }

    /// The `n` most frequent commands, as `History::top_n_commands`.
    pub fn top_n_commands(&self, n: usize) -> (r: Vec<(String, usize)>)
        ensures
            is_ranking(
                self.history@.map_values(|m: EntryModel| m.command),
                n as nat,
                view_pairs(r@),
            ),
    {
        self.history.top_n_commands(n)
    }

    /// The `n` most frequent binaries, as `History::top_n_binaries`.
    pub fn top_n_binaries(&self, n: usize) -> (r: Vec<(String, usize)>)
        ensures
            is_ranking(binaries_of(self.history@, 0), n as nat, view_pairs(r@)),
    {
        self.history.top_n_binaries(n)
    }

    /// The span of the local dates of the entries, as
    /// `History::date_range`: the fold of the entries' optional local
    /// dates, all of them valid.
    pub fn date_range(&self) -> (r: Option<(Date, Date)>)
        ensures
            self.history@.len() == 0 ==> r is None,
            r matches Some(pair) ==> valid_date(pair.0) && valid_date(pair.1),
            exists|ds: Seq<Option<Date>>|
                ds.len() == self.history@.len() && r == spec_range_fold(ds, 0, Option::None) && (
                forall|j: int|
                    0 <= j < ds.len() ==> ((#[trigger] ds[j]) matches Some(d) ==> valid_date(d))),
    {
        let r = self.history.date_range();
        proof {
            if r is Some {
                let ds = choose|ds: Seq<Option<Date>>|
                    ds.len() == self.history@.len() && r == spec_range_fold(ds, 0, Option::None)
                        && (forall|j: int|
                        0 <= j < ds.len() ==> ((#[trigger] ds[j]) matches Some(d) ==> valid_date(
                            d,
                        )));
                lemma_range_fold_valid(ds, 0, Option::None);
            }
        }
        r
    }

    /// The number of distinct command values that occur more than once.
    pub fn duplicate_count(&self) -> (r: usize)
        ensures
            r == spec_dup_count(self.history@),
    {
        self.history.count_duplicates()
    }

    /// Analyzes the history: its size, the span of its dates (today when
    /// no entry has one), and the `n` most frequent commands and binaries.
    pub fn analyze(&self, n: usize) -> (r: HistoryAnalysis)
        ensures
            r.filename@ == self.history.filename@,
            r.size == self.history@.len(),
            valid_date(r.date_range.0),
            valid_date(r.date_range.1),
            exists|ds: Seq<Option<Date>>|
                #![trigger spec_range_fold(ds, 0, Option::None)]
                ds.len() == self.history@.len() && (forall|j: int|
                    0 <= j < ds.len() ==> ((#[trigger] ds[j]) matches Some(d) ==> valid_date(d)))
                    && (match spec_range_fold(ds, 0, Option::None) {
                    Option::Some(pair) => r.date_range == pair,
                    Option::None => r.date_range.0 == r.date_range.1,
                }),
            is_ranking(
                self.history@.map_values(|m: EntryModel| m.command),
                n as nat,
                view_pairs(r.top_n_commands@),
            ),
            is_ranking(binaries_of(self.history@, 0), n as nat, view_pairs(r.top_n_binaries@)),
    {
        let date_range_opt = self.date_range();
        let ghost gds = choose|ds: Seq<Option<Date>>|
            ds.len() == self.history@.len() && date_range_opt == spec_range_fold(
                ds,
                0,
                Option::None,
            ) && (forall|j: int|
                0 <= j < ds.len() ==> ((#[trigger] ds[j]) matches Some(d) ==> valid_date(d)));
        let date_range = match date_range_opt {
            Some(pair) => pair,
            None => {
                let today = current_local_date();
                (today, today)
            },
        };
        proof {
            assert(date_range_opt == spec_range_fold(gds, 0, Option::None));
            assert(match spec_range_fold(gds, 0, Option::None) {
                Option::Some(pair) => date_range == pair,
                Option::None => date_range.0 == date_range.1,
            });
        }
        HistoryAnalysis {
            filename: self.history.filename.clone(),
            size: self.history.size(),
            date_range,
            top_n_commands: self.top_n_commands(n),
            top_n_binaries: self.top_n_binaries(n),
        }
    }
}

/// The result of analyzing a history: its file, its size, the span of its
/// dates, and the ranked command and binary lists.
#[derive(Debug)]
pub struct HistoryAnalysis {
    /// The file the history was read from.
    pub filename: String,
    /// The number of entries.
    pub size: usize,
    /// The least and greatest local date over the entries, or today twice
    /// when there is none.
    pub date_range: (Date, Date),
    /// The most frequent commands with their counts, ranked.
    pub top_n_commands: Vec<(String, usize)>,
    /// The most frequent binaries with their counts, ranked.
    pub top_n_binaries: Vec<(String, usize)>,
}

/// A fold over valid dates yields a pair of valid dates.
proof fn lemma_range_fold_valid(ds: Seq<Option<Date>>, i: int, acc: Option<(Date, Date)>)
    requires
        0 <= i <= ds.len(),
        forall|j: int| 0 <= j < ds.len() ==> ((#[trigger] ds[j]) matches Some(d) ==> valid_date(d)),
        acc matches Some(pair) ==> valid_date(pair.0) && valid_date(pair.1),
    ensures
        spec_range_fold(ds, i, acc) matches Some(pair) ==> valid_date(pair.0) && valid_date(
            pair.1,
        ),
    decreases ds.len() - i,
{
    if i < ds.len() {
        let acc2 = match ds[i] {
            Option::None => acc,
            Option::Some(d) => match acc {
                Option::None => Option::Some((d, d)),
                Option::Some((lo, hi)) => Option::Some(
                    (
                        if crate::dates::spec_date_le(lo, d) {
                            lo
                        } else {
                            d
                        },
                        if crate::dates::spec_date_le(hi, d) {
                            d
                        } else {
                            hi
                        },
                    ),
                ),
            },
        };
        lemma_range_fold_valid(ds, i + 1, acc2);
    }
}

/// Two listed pairs of a ranking never share a key.
proof fn lemma_ranking_keys_distinct(ks: Seq<Seq<char>>, n: nat, rm: Seq<(Seq<char>, nat)>)
    requires
        is_ranking(ks, n, rm),
    ensures
        forall|i: int, j: int|
            0 <= i < j < rm.len() ==> (#[trigger] rm[i]).0 != (#[trigger] rm[j]).0,
{
    assert forall|i: int, j: int|
        0 <= i < j < rm.len() implies (#[trigger] rm[i]).0 != (#[trigger] rm[j]).0 by {
        if rm[i].0 == rm[j].0 {
            assert(rank_before(rm[i].0, rm[i].1, rm[j].0, rm[j].1));
            assert(rm[i].1 == rm[j].1);
            if lex_lt(rm[i].0, rm[j].0) {
                crate::text::lemma_lex_asymmetric(rm[i].0, rm[j].0);
            }
        }
    }
}

/// Ranking determinism: for given keys and a given size, exactly one
/// sequence of (key, count) pairs satisfies `is_ranking`, so the ranked
/// output of the analyzer is fully determined by its input.
pub proof fn lemma_ranking_unique(
    ks: Seq<Seq<char>>,
    n: nat,
    a: Seq<(Seq<char>, nat)>,
    b: Seq<(Seq<char>, nat)>,
)
    requires
        is_ranking(ks, n, a),
        is_ranking(ks, n, b),
    ensures
        a == b,
{
    lemma_ranking_unique_upto(ks, n, a, b, a.len() as int);
    assert(a =~= b);
}

/// The first `i` pairs of two rankings of the same keys agree.
proof fn lemma_ranking_unique_upto(
    ks: Seq<Seq<char>>,
    n: nat,
    a: Seq<(Seq<char>, nat)>,
    b: Seq<(Seq<char>, nat)>,
    i: int,
)
    requires
        is_ranking(ks, n, a),
        is_ranking(ks, n, b),
        0 <= i <= a.len(),
    ensures
        forall|j: int| 0 <= j < i ==> a[j] == b[j],
    decreases i,
{
    if i > 0 {
        lemma_ranking_unique_upto(ks, n, a, b, i - 1);
        lemma_ranking_keys_distinct(ks, n, a);
        lemma_ranking_keys_distinct(ks, n, b);
        assert(a.len() == b.len());
        let pa = a[i - 1];
        let ka = pa.0;
        assert(ks.contains(ka));
        assert(pa.1 == count_of(ks, ka));
        if exists|j: int| 0 <= j < b.len() && (#[trigger] b[j]).0 == ka {
            let j = choose|j: int| 0 <= j < b.len() && (#[trigger] b[j]).0 == ka;
            assert(b[j].1 == count_of(ks, ka));
            assert(b[j] == pa);
            if j < i - 1 {
                assert(a[j] == b[j]);
                assert(a[j].0 == a[i - 1].0);
                assert(false);
            } else if j > i - 1 {
                assert(rank_before(b[i - 1].0, b[i - 1].1, ka, pa.1));
                lemma_ranking_not_before(ks, n, a, b, i, b[i - 1].0, b[i - 1].1);
                assert(false);
            }
            assert(a[i - 1] == b[i - 1]);
        } else {
            assert(forall|j: int| 0 <= j < b.len() ==> (#[trigger] b[j]).0 != ka);
            assert(rank_before(b[i - 1].0, b[i - 1].1, ka, count_of(ks, ka)));
            lemma_ranking_not_before(ks, n, a, b, i, b[i - 1].0, b[i - 1].1);
            assert(false);
        }
    }
}

/// In the uniqueness proof, the pair of `b` at `i - 1` never ranks
/// strictly before the pair of `a` at the same position once the earlier
/// pairs agree.  `kb` and `cb` name that pair of `b`.
proof fn lemma_ranking_not_before(
    ks: Seq<Seq<char>>,
    n: nat,
    a: Seq<(Seq<char>, nat)>,
    b: Seq<(Seq<char>, nat)>,
    i: int,
    kb: Seq<char>,
    cb: nat,
)
    requires
        is_ranking(ks, n, a),
        is_ranking(ks, n, b),
        0 < i <= a.len(),
        a.len() == b.len(),
        forall|j: int| 0 <= j < i - 1 ==> a[j] == b[j],
        forall|p: int, q: int|
            0 <= p < q < a.len() ==> (#[trigger] a[p]).0 != (#[trigger] a[q]).0,
        forall|p: int, q: int|
            0 <= p < q < b.len() ==> (#[trigger] b[p]).0 != (#[trigger] b[q]).0,
        b[i - 1] == (kb, cb),
    ensures
        !rank_before(kb, cb, a[i - 1].0, a[i - 1].1),
{
    let pa = a[i - 1];
    assert(ks.contains(kb));
    assert(cb == count_of(ks, kb));
    if exists|m: int| 0 <= m < a.len() && (#[trigger] a[m]).0 == kb {
        let m = choose|m: int| 0 <= m < a.len() && (#[trigger] a[m]).0 == kb;
        assert(a[m].1 == count_of(ks, kb));
        if m < i - 1 {
            assert(a[m] == b[m]);
            assert(b[m].0 == b[i - 1].0);
            assert(false);
        } else if m == i - 1 {
            assert(pa.0 == kb);
            assert(cb == pa.1);
            if lex_lt(kb, pa.0) {
                crate::text::lemma_lex_asymmetric(kb, pa.0);
            }
        } else {
            assert(rank_before(pa.0, pa.1, a[m].0, a[m].1));
            assert(a[m] == (kb, cb));
            lemma_rank_asym(pa.0, pa.1, kb, cb);
        }
    } else {
        assert(forall|m: int| 0 <= m < a.len() ==> (#[trigger] a[m]).0 != kb);
        assert(rank_before(pa.0, pa.1, kb, count_of(ks, kb)));
        lemma_rank_asym(pa.0, pa.1, kb, cb);
    }
}

/// A key that does not occur has count zero.
proof fn lemma_count_zero_of_absent(ks: Seq<Seq<char>>, c: Seq<char>)
    requires
        !ks.contains(c),
    ensures
        count_of(ks, c) == 0,
    decreases ks.len(),
{
    if ks.len() > 0 {
        assert(!ks.drop_last().contains(c)) by {
            if ks.drop_last().contains(c) {
                let w = choose|k: int| 0 <= k < ks.drop_last().len() && ks.drop_last()[k] == c;
                assert(ks[w] == c);
            }
        }
        lemma_count_zero_of_absent(ks.drop_last(), c);
        assert(ks.last() != c) by {
            assert(ks[ks.len() - 1] == ks.last());
        }
    }
}

} // verus!
