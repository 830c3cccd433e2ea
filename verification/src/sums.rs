use vstd::prelude::*;
use vstd::multiset::Multiset;

verus! {

/// The multiset sum of a sequence of multisets.
pub open spec fn total<T>(parts: Seq<Multiset<T>>) -> Multiset<T>
    decreases parts.len(),
{
    if parts.len() == 0 {
        Multiset::empty()
    } else {
        total(parts.drop_last()).add(parts.last())
    }
}

/// Appending a summand adds it to the sum.
pub proof fn lemma_total_push<T>(parts: Seq<Multiset<T>>, m: Multiset<T>)
    ensures
        total(parts.push(m)) == total(parts).add(m),
{
    assert(parts.push(m).drop_last() =~= parts);
}

/// The sum of a concatenation is the sum of the two sums.
pub proof fn lemma_total_concat<T>(a: Seq<Multiset<T>>, b: Seq<Multiset<T>>)
    ensures
        total(a + b) == total(a).add(total(b)),
    decreases b.len(),
{
    if b.len() == 0 {
        assert(a + b =~= a);
        assert(total(a).add(total(b)) =~= total(a));
    } else {
        lemma_total_concat(a, b.drop_last());
        assert((a + b).drop_last() =~= a + b.drop_last());
        assert(total(a + b) =~= total(a).add(total(b)));
    }
}

/// The sum is the first summand added to the sum of the others.
pub proof fn lemma_total_first<T>(parts: Seq<Multiset<T>>)
    requires
        parts.len() > 0,
    ensures
        total(parts) == parts[0].add(total(parts.drop_first())),
{
    let head = seq![parts[0]];
    assert(head + parts.drop_first() =~= parts);
    lemma_total_concat(head, parts.drop_first());
    assert(total(head.drop_last()) =~= Multiset::<T>::empty());
    assert(total(head) =~= parts[0]);
}

/// Replacing summand `j` by `m` takes the old summand out of the sum and
/// puts `m` in.
pub proof fn lemma_total_update<T>(parts: Seq<Multiset<T>>, j: int, m: Multiset<T>)
    requires
        0 <= j < parts.len(),
    ensures
        total(parts.update(j, m)).add(parts[j]) == total(parts).add(m),
    decreases parts.len(),
{
    let upd = parts.update(j, m);
    if j == parts.len() - 1 {
        assert(upd.drop_last() =~= parts.drop_last());
        assert(total(upd).add(parts[j]) =~= total(parts).add(m));
    } else {
        let shorter = parts.drop_last();
        lemma_total_update(shorter, j, m);
        assert(upd.drop_last() =~= shorter.update(j, m));
        assert(upd.last() == parts.last());
        assert(shorter[j] == parts[j]);
        assert(total(upd) == total(shorter.update(j, m)).add(parts.last()));
        assert(total(parts) == total(shorter).add(parts.last()));
        assert(total(upd).add(parts[j]) =~= total(shorter.update(j, m)).add(parts[j]).add(
            parts.last(),
        ));
        assert(total(upd).add(parts[j]) =~= total(parts).add(m));
    }
}

/// A value found in the sum is found in one of the summands.
pub proof fn lemma_total_contains<T>(parts: Seq<Multiset<T>>, x: T) -> (i: int)
    requires
        total(parts).contains(x),
    ensures
        0 <= i < parts.len(),
        parts[i].contains(x),
    decreases parts.len(),
{
    if parts.len() == 0 {
        0
    } else if parts.last().contains(x) {
        parts.len() - 1
    } else {
        lemma_total_contains(parts.drop_last(), x)
    }
}

/// Every summand is contained in the sum.
pub proof fn lemma_total_part<T>(parts: Seq<Multiset<T>>, i: int)
    requires
        0 <= i < parts.len(),
    ensures
        parts[i].subset_of(total(parts)),
        parts[i].len() <= total(parts).len(),
    decreases parts.len(),
{
    if i < parts.len() - 1 {
        lemma_total_part(parts.drop_last(), i);
    }
}

/// A sum of empty multisets is empty.
pub proof fn lemma_total_all_empty<T>(parts: Seq<Multiset<T>>)
    requires
        forall|i: int| 0 <= i < parts.len() ==> parts[i] == Multiset::<T>::empty(),
    ensures
        total(parts) == Multiset::<T>::empty(),
    decreases parts.len(),
{
    if parts.len() > 0 {
        lemma_total_all_empty(parts.drop_last());
        assert(total(parts) =~= Multiset::<T>::empty());
    }
}

/// The concatenation of a sequence of sequences.
pub open spec fn concat<T>(parts: Seq<Seq<T>>) -> Seq<T>
    decreases parts.len(),
{
    if parts.len() == 0 {
        Seq::empty()
    } else {
        concat(parts.drop_last()) + parts.last()
    }
}

/// Appending a part appends it to the concatenation.
pub proof fn lemma_concat_push<T>(parts: Seq<Seq<T>>, part: Seq<T>)
    ensures
        concat(parts.push(part)) == concat(parts) + part,
{
    assert(parts.push(part).drop_last() =~= parts);
}

} // verus!
