//! The relation between a table and an index that is derived from it.
//!
//! A derived index is built by walking the entries of a table in order and
//! filing the target of each entry under its alternate key, where it has
//! one. Where two entries share an alternate key, the later entry wins, and
//! the construction reports the first entry that repeats a key.

use vstd::prelude::*;

verus! {

/// Position `i` is the last one that carries the alternate key `a`.
pub open spec fn is_last<A>(alts: Seq<Option<A>>, a: A, i: int) -> bool {
    &&& 0 <= i < alts.len()
    &&& alts[i] == Some(a)
    &&& forall|j: int| i < j < alts.len() ==> alts[j] != Some(a)
}

/// `index` holds exactly the alternate keys that occur in `alts`, and sends
/// each to the target at the last position that carries it.
pub open spec fn derived<A, V>(index: Map<A, V>, alts: Seq<Option<A>>, targets: Seq<V>) -> bool {
    &&& forall|a: A| #[trigger] index.contains_key(a) <==> alts.contains(Some(a))
    &&& forall|a: A, i: int| #[trigger] is_last(alts, a, i) ==> index[a] == targets[i]
}

/// The alternate keys that occur in `alts`, each once, in the order in which
/// they first occur.
pub open spec fn first_occurrences<A>(alts: Seq<Option<A>>) -> Seq<A>
    decreases alts.len(),
{
    if alts.len() == 0 {
        Seq::empty()
    } else {
        let front = first_occurrences(alts.drop_last());
        match alts.last() {
            Some(a) => if front.contains(a) {
                front
            } else {
                front.push(a)
            },
            None => front,
        }
    }
}

/// No alternate key occurs at two positions.
pub open spec fn all_distinct<A>(alts: Seq<Option<A>>) -> bool {
    forall|i: int, j: int|
        0 <= i < alts.len() && 0 <= j < alts.len() && i != j && alts[i] is Some ==> alts[i]
            != alts[j]
}

/// The alternate keys of the positions that have one, in order.
pub open spec fn present_keys<A>(alts: Seq<Option<A>>) -> Seq<A> {
    alts.filter(|alt: Option<A>| alt is Some).map_values(|alt: Option<A>| alt->0)
}

/// `index` leads from the alternate key of every position that has one to
/// the target of that position.
pub open spec fn files_each<A, V>(index: Map<A, V>, alts: Seq<Option<A>>, targets: Seq<V>) -> bool {
    forall|i: int|
        0 <= i < alts.len() && (#[trigger] alts[i]) is Some ==> index.contains_key(alts[i]->0)
            && index[alts[i]->0] == targets[i]
}

/// Position `i` is the first that repeats an alternate key: an earlier
/// position carries the same key, and before `i` no key occurs twice.
pub open spec fn is_first_repeat<A>(alts: Seq<Option<A>>, i: int) -> bool {
    &&& 0 <= i < alts.len()
    &&& alts[i] is Some
    &&& exists|j: int| 0 <= j < i && alts[j] == alts[i]
    &&& all_distinct(alts.take(i))
}

/// What the construction of an index reports of repeated alternate keys:
/// the first position that repeats one, or `None` where no key occurs twice.
pub open spec fn reports_repeat<A>(alts: Seq<Option<A>>, report: Option<usize>) -> bool {
    match report {
        Some(i) => is_first_repeat(alts, i as int),
        None => all_distinct(alts),
    }
}

/// One more entry: its alternate key goes to the end, unless it has none or
/// the key has occurred before.
pub proof fn lemma_first_occurrences_push<A>(alts: Seq<Option<A>>, alt: Option<A>)
    ensures
        first_occurrences(alts.push(alt)) == match alt {
            Some(a) => if first_occurrences(alts).contains(a) {
                first_occurrences(alts)
            } else {
                first_occurrences(alts).push(a)
            },
            None => first_occurrences(alts),
        },
{
    assert(alts.push(alt).drop_last() =~= alts);
}

/// A sequence with one more element holds what it held before, and that
/// element.
pub proof fn lemma_push_contains<T>(s: Seq<T>, last: T, x: T)
    ensures
        s.push(last).contains(x) <==> s.contains(x) || x == last,
{
    let longer = s.push(last);
    if longer.contains(x) {
        let i = choose|i: int| 0 <= i < longer.len() && longer[i] == x;
        if i < s.len() {
            assert(s[i] == x);
        }
    }
    if s.contains(x) {
        let i = choose|i: int| 0 <= i < s.len() && s[i] == x;
        assert(longer[i] == x);
    }
    if x == last {
        assert(longer[s.len() as int] == x);
    }
}

/// The keys that `first_occurrences` lists are those that occur.
pub proof fn lemma_first_occurrences_contains<A>(alts: Seq<Option<A>>, a: A)
    ensures
        first_occurrences(alts).contains(a) <==> alts.contains(Some(a)),
    decreases alts.len(),
{
    if alts.len() > 0 {
        let front = alts.drop_last();
        lemma_first_occurrences_contains(front, a);
        assert(front.push(alts.last()) =~= alts);
        lemma_push_contains(front, alts.last(), Some(a));
        match alts.last() {
            Some(b) => {
                lemma_first_occurrences_contains(front, b);
                lemma_push_contains(first_occurrences(front), b, a);
            },
            None => {},
        }
    }
}

/// Where every position has an alternate key and no key occurs twice,
/// `first_occurrences` lists the key of each position in turn.
pub proof fn lemma_first_occurrences_distinct<A>(alts: Seq<Option<A>>, keys: Seq<A>)
    requires
        keys.no_duplicates(),
        alts == keys.map_values(|k: A| Some(k)),
    ensures
        first_occurrences(alts) == keys,
    decreases alts.len(),
{
    if alts.len() > 0 {
        let n = keys.len() as int;
        assert(alts.drop_last() =~= keys.drop_last().map_values(|k: A| Some(k)));
        lemma_first_occurrences_distinct(alts.drop_last(), keys.drop_last());
        assert(!keys.drop_last().contains(keys[n - 1])) by {
            if keys.drop_last().contains(keys[n - 1]) {
                let i = choose|i: int| 0 <= i < n - 1 && keys.drop_last()[i] == keys[n - 1];
                assert(keys[i] == keys[n - 1]);
            }
        }
    }
}

/// One more entry: its target is filed under its alternate key, if it has one.
pub proof fn lemma_derived_push<A, V>(
    index: Map<A, V>,
    alts: Seq<Option<A>>,
    targets: Seq<V>,
    alt: Option<A>,
    target: V,
)
    requires
        derived(index, alts, targets),
        alts.len() == targets.len(),
    ensures
        derived(
            match alt {
                Some(a) => index.insert(a, target),
                None => index,
            },
            alts.push(alt),
            targets.push(target),
        ),
{
    let index2 = match alt {
        Some(a) => index.insert(a, target),
        None => index,
    };
    let alts2 = alts.push(alt);
    let targets2 = targets.push(target);
    let n = alts.len() as int;
    assert forall|a: A| #[trigger] index2.contains_key(a) <==> alts2.contains(Some(a)) by {
        if alts2.contains(Some(a)) {
            let i = choose|i: int| 0 <= i < alts2.len() && alts2[i] == Some(a);
            if i < n {
                assert(alts[i] == Some(a));
            }
        }
        if index.contains_key(a) {
            let i = choose|i: int| 0 <= i < alts.len() && alts[i] == Some(a);
            assert(alts2[i] == Some(a));
        }
        if alt == Some(a) {
            assert(alts2[n] == Some(a));
        }
    }
    assert forall|a: A, i: int| #[trigger]
        is_last(alts2, a, i) implies index2[a] == targets2[i] by {
        if i < n {
            assert(alts2[n] != Some(a));
            assert(is_last(alts, a, i)) by {
                assert forall|j: int| i < j < alts.len() implies alts[j] != Some(a) by {
                    assert(alts2[j] == alts[j]);
                }
            }
        }
    }
}

/// Every alternate key that occurs has a last position.
pub proof fn lemma_last_exists<A>(alts: Seq<Option<A>>, a: A) -> (i: int)
    requires
        alts.contains(Some(a)),
    ensures
        is_last(alts, a, i),
    decreases alts.len(),
{
    let n = alts.len() as int;
    let w = choose|i: int| 0 <= i < alts.len() && alts[i] == Some(a);
    if alts[n - 1] == Some(a) {
        n - 1
    } else {
        let front = alts.drop_last();
        assert(front[w] == Some(a));
        let i = lemma_last_exists(front, a);
        assert forall|j: int| i < j < alts.len() implies alts[j] != Some(a) by {
            if j < n - 1 {
                assert(front[j] == alts[j]);
            }
        }
        i
    }
}

/// Where no alternate key occurs twice, each entry is found under its own.
pub proof fn lemma_derived_at<A, V>(index: Map<A, V>, alts: Seq<Option<A>>, targets: Seq<V>, i: int)
    requires
        derived(index, alts, targets),
        0 <= i < alts.len(),
        alts[i] is Some,
        forall|j: int| 0 <= j < alts.len() && j != i ==> alts[j] != alts[i],
    ensures
        index.contains_key(alts[i]->0),
        index[alts[i]->0] == targets[i],
{
    let a = alts[i]->0;
    assert(alts.contains(Some(a)));
    assert(is_last(alts, a, i));
}

/// A repeat is reported exactly where some alternate key occurs twice.
pub proof fn lemma_report_is_none_iff_distinct<A>(alts: Seq<Option<A>>, report: Option<usize>)
    requires
        reports_repeat(alts, report),
    ensures
        report is None <==> all_distinct(alts),
{
    if report is Some {
        let i = report->0 as int;
        let j = choose|j: int| 0 <= j < i && alts[j] == alts[i];
        assert(alts[i] is Some && alts[i] == alts[j] && i != j);
    }
}

/// One more entry that repeats no alternate key leaves the keys distinct.
pub proof fn lemma_all_distinct_push<A>(alts: Seq<Option<A>>, alt: Option<A>)
    requires
        all_distinct(alts),
        alt is Some ==> !alts.contains(alt),
    ensures
        all_distinct(alts.push(alt)),
{
    let longer = alts.push(alt);
    assert forall|i: int, j: int|
        0 <= i < longer.len() && 0 <= j < longer.len() && i != j
            && longer[i] is Some implies longer[i] != longer[j] by {
        if i < alts.len() && j < alts.len() {
            assert(alts[i] != alts[j]);
        } else if i < alts.len() {
            assert(alts.contains(alts[i]));
        } else {
            assert(alts.contains(alts[j]) || alts[j] != alt);
        }
    }
}

/// A repeat that was found in a prefix stays the first repeat of the whole.
pub proof fn lemma_first_repeat_extends<A>(alts: Seq<Option<A>>, n: int, i: int)
    requires
        0 <= n <= alts.len(),
        is_first_repeat(alts.take(n), i),
    ensures
        is_first_repeat(alts, i),
{
    let j = choose|j: int| 0 <= j < i && alts.take(n)[j] == alts.take(n)[i];
    assert(alts[j] == alts[i]);
    assert(alts.take(n).take(i) =~= alts.take(i));
}

/// Where no alternate key occurs twice, `first_occurrences` lists the key
/// of each position that has one, in turn.
pub proof fn lemma_first_occurrences_of_distinct<A>(alts: Seq<Option<A>>)
    requires
        all_distinct(alts),
    ensures
        first_occurrences(alts) == present_keys(alts),
    decreases alts.len(),
{
    reveal(Seq::filter);
    if alts.len() > 0 {
        let front = alts.drop_last();
        assert(all_distinct(front)) by {
            assert forall|i: int, j: int|
                0 <= i < front.len() && 0 <= j < front.len() && i != j
                    && front[i] is Some implies front[i] != front[j] by {
                assert(alts[i] != alts[j]);
            }
        }
        lemma_first_occurrences_of_distinct(front);
        match alts.last() {
            Some(a) => {
                lemma_first_occurrences_contains(front, a);
                if front.contains(Some(a)) {
                    let i = choose|i: int| 0 <= i < front.len() && front[i] == Some(a);
                    assert(alts[i] == alts[alts.len() - 1]);
                }
                assert(present_keys(alts) =~= present_keys(front).push(a));
            },
            None => {
                assert(present_keys(alts) =~= present_keys(front));
            },
        }
    } else {
        assert(present_keys(alts) =~= Seq::<A>::empty());
    }
}

/// Where no alternate key occurs twice, the index leads from the alternate
/// key of every position to the target of that position.
pub proof fn lemma_distinct_files_each<A, V>(
    index: Map<A, V>,
    alts: Seq<Option<A>>,
    targets: Seq<V>,
)
    requires
        derived(index, alts, targets),
        all_distinct(alts),
    ensures
        files_each(index, alts, targets),
{
    assert forall|i: int|
        0 <= i < alts.len() && (#[trigger] alts[i]) is Some implies index.contains_key(alts[i]->0)
        && index[alts[i]->0] == targets[i] by {
        lemma_derived_at(index, alts, targets, i);
    }
}

} // verus!
