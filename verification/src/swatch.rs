//! Grouping the segments of an image into swatches by colour label.
use vstd::prelude::*;

verus! {

/// The total length of the first `k` segments.
pub open spec fn total_prefix(lens: Seq<usize>, k: nat) -> nat
    decreases k,
{
    if k == 0 || k > lens.len() {
        0
    } else {
        total_prefix(lens, (k - 1) as nat) + lens[k - 1] as nat
    }
}

/// The total length of all segments.
pub open spec fn total_len(lens: Seq<usize>) -> nat {
    total_prefix(lens, lens.len())
}

/// The total length of the segments labelled `l` among the first `k`.
pub open spec fn population_prefix(labels: Seq<usize>, lens: Seq<usize>, l: usize, k: nat) -> nat
    decreases k,
{
    if k == 0 || k > labels.len() {
        0
    } else {
        population_prefix(labels, lens, l, (k - 1) as nat) + if labels[k - 1] == l {
            lens[k - 1] as nat
        } else {
            0
        }
    }
}

/// The population of the swatch `l`: the total length of its segments.
pub open spec fn label_population(labels: Seq<usize>, lens: Seq<usize>, l: usize) -> nat {
    population_prefix(labels, lens, l, labels.len())
}

/// The segment `i` is the first of the largest segments labelled `l`.
pub open spec fn is_first_largest(labels: Seq<usize>, lens: Seq<usize>, l: usize, i: int) -> bool {
    &&& 0 <= i < labels.len()
    &&& labels[i] == l
    &&& forall|t: int|
        0 <= t < labels.len() && #[trigger] labels[t] == l ==> lens[t] <= lens[i] && (t < i
            ==> lens[t] < lens[i])
}

/// `groups` holds one entry `(label, population, largest)` for each label
/// of `labels`, in increasing order of label: the total length of the
/// segments with that label, and the first of the largest of them.
pub open spec fn is_swatch_grouping(
    labels: Seq<usize>,
    lens: Seq<usize>,
    groups: Seq<(usize, usize, usize)>,
) -> bool {
    &&& forall|g: int|
        0 <= g < groups.len() ==> {
            &&& (#[trigger] groups[g]).1 == label_population(labels, lens, groups[g].0)
            &&& is_first_largest(labels, lens, groups[g].0, groups[g].2 as int)
        }
    &&& forall|g1: int, g2: int| 0 <= g1 < g2 < groups.len() ==> groups[g1].0 < groups[g2].0
    &&& forall|i: int| 0 <= i < labels.len() ==> has_group(groups, #[trigger] labels[i])
}

/// Some entry of `groups` has the label `l`.
pub open spec fn has_group(groups: Seq<(usize, usize, usize)>, l: usize) -> bool {
    exists|g: int| 0 <= g < groups.len() && #[trigger] groups[g].0 == l
}

proof fn lemma_population_bounded(labels: Seq<usize>, lens: Seq<usize>, l: usize, k: nat)
    requires
        labels.len() == lens.len(),
        k <= labels.len(),
    ensures
        population_prefix(labels, lens, l, k) <= total_prefix(lens, k),
    decreases k,
{
    if k > 0 {
        lemma_population_bounded(labels, lens, l, (k - 1) as nat);
    }
}

proof fn lemma_total_monotone(lens: Seq<usize>, k: nat, m: nat)
    requires
        k <= m <= lens.len(),
    ensures
        total_prefix(lens, k) <= total_prefix(lens, m),
    decreases m,
{
    if k < m {
        lemma_total_monotone(lens, k, (m - 1) as nat);
    }
}

/// Groups segments into swatches: `labels[i]` is the colour label of the
/// segment `i` and `lens[i]` its number of pixels. Returns, for each label
/// in increasing order, the label, the total number of pixels of its
/// segments (the swatch's population) and the index of its first largest
/// segment (the one whose position the swatch takes).
pub fn group_swatches(labels: &[usize], lens: &[usize]) -> (groups: Vec<(usize, usize, usize)>)
    requires
        labels@.len() == lens@.len(),
        total_len(lens@) <= usize::MAX,
    ensures
        is_swatch_grouping(labels@, lens@, groups@),
{
    let n = labels.len();
    let mut groups: Vec<(usize, usize, usize)> = Vec::new();
    let mut started = false;
    let mut current: usize = 0;
    loop
        invariant
            n == labels@.len(),
            labels@.len() == lens@.len(),
            total_len(lens@) <= usize::MAX,
            !started ==> groups@.len() == 0,
            forall|g: int|
                0 <= g < groups@.len() ==> {
                    &&& (#[trigger] groups@[g]).1 == label_population(labels@, lens@, groups@[g].0)
                    &&& is_first_largest(labels@, lens@, groups@[g].0, groups@[g].2 as int)
                    &&& groups@[g].0 <= current
                },
            forall|g1: int, g2: int|
                0 <= g1 < g2 < groups@.len() ==> groups@[g1].0 < groups@[g2].0,
            forall|i: int|
                0 <= i < n && started && labels@[i] <= current ==> has_group(
                    groups@,
                    #[trigger] labels@[i],
                ),
        ensures
            is_swatch_grouping(labels@, lens@, groups@),
        decreases (if started {
            usize::MAX - current
        } else {
            usize::MAX + 1
        }),
    {
        let mut found = false;
        let mut next: usize = 0;
        let mut j: usize = 0;
        while j < n
            invariant
                n == labels@.len(),
                j <= n,
                found ==> (!started || next > current) && exists|k: int| 0 <= k < j && labels@[k] == next,
                found ==> forall|k: int|
                    0 <= k < j && (!started || labels@[k] > current) ==> labels@[k] >= next,
                !found ==> forall|k: int| 0 <= k < j ==> started && labels@[k] <= current,
            decreases n - j,
        {
            let l = labels[j];
            if (!started || l > current) && (!found || l < next) {
                next = l;
                found = true;
            }
            j = j + 1;
        }
        if !found {
            proof {
                assert forall|i: int| 0 <= i < labels@.len() implies has_group(
                    groups@,
                    #[trigger] labels@[i],
                ) by {
                    assert(started && labels@[i] <= current);
                }
            }
            break;
        }
        let mut population: usize = 0;
        let mut largest: usize = 0;
        let mut seen = false;
        let mut j: usize = 0;
        while j < n
            invariant
                n == labels@.len(),
                labels@.len() == lens@.len(),
                total_len(lens@) <= usize::MAX,
                j <= n,
                population == population_prefix(labels@, lens@, next, j as nat),
                seen ==> largest < j && labels@[largest as int] == next,
                seen ==> forall|t: int|
                    0 <= t < j && #[trigger] labels@[t] == next ==> lens@[t] <= lens@[largest as int]
                        && (t < largest ==> lens@[t] < lens@[largest as int]),
                !seen ==> forall|t: int| 0 <= t < j ==> labels@[t] != next,
            decreases n - j,
        {
            if labels[j] == next {
                proof {
                    lemma_population_bounded(labels@, lens@, next, (j + 1) as nat);
                    lemma_total_monotone(lens@, (j + 1) as nat, n as nat);
                }
                population = population + lens[j];
                if !seen || lens[j] > lens[largest] {
                    largest = j;
                    seen = true;
                }
            }
            j = j + 1;
        }
        proof {
            let w = choose|k: int| 0 <= k < n && labels@[k] == next;
            assert(labels@[w] == next);
            assert(seen);
        }
        let ghost old_groups = groups@;
        groups.push((next, population, largest));
        proof {
            let last = old_groups.len() as int;
            assert(groups@[last] == (next, population, largest));
            assert forall|g: int| 0 <= g < last implies groups@[g] == old_groups[g] by {}
            assert forall|i: int| 0 <= i < n && labels@[i] <= next implies has_group(
                groups@,
                #[trigger] labels@[i],
            ) by {
                if started && labels@[i] <= current {
                    let g = choose|g: int| 0 <= g < old_groups.len() && old_groups[g].0 == labels@[i];
                    assert(groups@[g].0 == labels@[i]);
                } else {
                    assert(labels@[i] == next);
                    assert(groups@[last].0 == labels@[i]);
                }
            }
        }
        current = next;
        started = true;
    }
    groups
}

} // verus!
