use crate::report::{eligible, is_selection, ranks_below};
use crate::scan::{line_key, regex_matches, tally};
use crate::table::{count_in, mapped_prefix, normalize, FrequencyTable};
use vstd::prelude::*;

verus! {

/// How many of the lines yield the table key `k`.
pub open spec fn occurrences(
    pattern: Seq<char>,
    lines: Seq<Seq<char>>,
    key: nat,
    fixed: bool,
    k: Seq<char>,
) -> nat
    decreases lines.len(),
{
    if lines.len() == 0 {
        0
    } else {
        occurrences(pattern, lines.drop_last(), key, fixed, k) + if line_key(
            pattern,
            lines.last(),
            key,
            fixed,
        ) == Some(k) {
            1nat
        } else {
            0nat
        }
    }
}

/// When no line matches the pattern, nothing is tallied, and a table holding that tally
/// reports nothing, whatever the threshold and limit.
pub proof fn law_unmatched_input_reports_nothing(
    pattern: Seq<char>,
    lines: Seq<Seq<char>>,
    key: nat,
    t: &FrequencyTable,
    threshold: Option<u32>,
    max_results: Option<usize>,
    ix: Seq<int>,
)
    requires
        forall|i: int| 0 <= i < lines.len() ==> regex_matches(pattern, #[trigger] lines[i]).len() == 0,
        t.wf(),
        t.counts_map() == tally(Map::empty(), pattern, lines, key, false),
        is_selection(t.entries(), threshold, max_results, ix),
    ensures
        tally(Map::empty(), pattern, lines, key, false) == Map::<Seq<char>, nat>::empty(),
        t.entries().len() == 0,
        ix.len() == 0,
    decreases lines.len(),
{
    lemma_unmatched_tally_empty(pattern, lines, key);
    t.lemma_entries_counts();
    if t.entries().len() > 0 {
        assert(t.counts_map().contains_key(t.entries()[0].0));
    }
    if ix.len() > 0 {
        assert(eligible(t.entries(), threshold, ix[0]));
    }
}

proof fn lemma_unmatched_tally_empty(pattern: Seq<char>, lines: Seq<Seq<char>>, key: nat)
    requires
        forall|i: int| 0 <= i < lines.len() ==> regex_matches(pattern, #[trigger] lines[i]).len() == 0,
    ensures
        tally(Map::empty(), pattern, lines, key, false) == Map::<Seq<char>, nat>::empty(),
    decreases lines.len(),
{
    if lines.len() > 0 {
        assert(regex_matches(pattern, lines[lines.len() - 1]).len() == 0);
        lemma_unmatched_tally_empty(pattern, lines.drop_last(), key);
    }
}

/// The final count of an address is the number of lines that yield it.
pub proof fn law_count_is_occurrences(
    pattern: Seq<char>,
    lines: Seq<Seq<char>>,
    key: nat,
    fixed: bool,
    k: Seq<char>,
)
    ensures
        count_in(tally(Map::empty(), pattern, lines, key, fixed), k) == occurrences(
            pattern,
            lines,
            key,
            fixed,
            k,
        ),
    decreases lines.len(),
{
    if lines.len() > 0 {
        law_count_is_occurrences(pattern, lines.drop_last(), key, fixed, k);
    }
}

/// Scanning a second source continues the tally of the first: counts add up across sources,
/// and the order of the sources does not change them.
pub proof fn law_sources_aggregate(
    pattern: Seq<char>,
    first: Seq<Seq<char>>,
    second: Seq<Seq<char>>,
    key: nat,
    fixed: bool,
    k: Seq<char>,
)
    ensures
        tally(Map::empty(), pattern, first + second, key, fixed) == tally(
            tally(Map::empty(), pattern, first, key, fixed),
            pattern,
            second,
            key,
            fixed,
        ),
        count_in(tally(Map::empty(), pattern, first + second, key, fixed), k) == occurrences(
            pattern,
            first,
            key,
            fixed,
            k,
        ) + occurrences(pattern, second, key, fixed, k),
        count_in(tally(Map::empty(), pattern, first + second, key, fixed), k) == count_in(
            tally(Map::empty(), pattern, second + first, key, fixed),
            k,
        ),
{
    lemma_tally_concat(Map::empty(), pattern, first, second, key, fixed);
    lemma_occurrences_concat(pattern, first, second, key, fixed, k);
    lemma_occurrences_concat(pattern, second, first, key, fixed, k);
    law_count_is_occurrences(pattern, first + second, key, fixed, k);
    law_count_is_occurrences(pattern, second + first, key, fixed, k);
}

proof fn lemma_tally_concat(
    m: Map<Seq<char>, nat>,
    pattern: Seq<char>,
    a: Seq<Seq<char>>,
    b: Seq<Seq<char>>,
    key: nat,
    fixed: bool,
)
    ensures
        tally(m, pattern, a + b, key, fixed) == tally(tally(m, pattern, a, key, fixed), pattern, b, key, fixed),
    decreases b.len(),
{
    if b.len() == 0 {
        assert(a + b =~= a);
    } else {
        assert((a + b).drop_last() =~= a + b.drop_last());
        lemma_tally_concat(m, pattern, a, b.drop_last(), key, fixed);
    }
}

proof fn lemma_occurrences_concat(
    pattern: Seq<char>,
    a: Seq<Seq<char>>,
    b: Seq<Seq<char>>,
    key: nat,
    fixed: bool,
    k: Seq<char>,
)
    ensures
        occurrences(pattern, a + b, key, fixed, k) == occurrences(pattern, a, key, fixed, k)
            + occurrences(pattern, b, key, fixed, k),
    decreases b.len(),
{
    if b.len() == 0 {
        assert(a + b =~= a);
    } else {
        assert((a + b).drop_last() =~= a + b.drop_last());
        lemma_occurrences_concat(pattern, a, b.drop_last(), key, fixed, k);
    }
}

/// A candidate that starts with `::ffff:` is kept as what follows it; any other is kept as it is.
pub proof fn law_mapped_prefix_stripped(rest: Seq<char>, other: Seq<char>)
    ensures
        normalize(mapped_prefix() + rest) == rest,
        !(other.len() >= 7 && other.subrange(0, 7) == mapped_prefix()) ==> normalize(other)
            == other,
{
    let s = mapped_prefix() + rest;
    assert(s.subrange(0, 7) =~= mapped_prefix());
    assert(s.subrange(7, s.len() as int) =~= rest);
}

/// Without a limit, the report holds exactly the entries whose count lies above the threshold.
pub proof fn law_threshold_exact(e: Seq<(Seq<char>, u32)>, threshold: u32, ix: Seq<int>)
    requires
        is_selection(e, Some(threshold), None, ix),
    ensures
        forall|j: int| 0 <= j < e.len() ==> (ix.contains(j) <==> e[j].1 > threshold),
{
    assert forall|j: int| 0 <= j < e.len() implies (ix.contains(j) <==> e[j].1 > threshold) by {
        if ix.contains(j) {
            let a = choose|a: int| 0 <= a < ix.len() && ix[a] == j;
            assert(eligible(e, Some(threshold), ix[a]));
        }
    }
}

/// With a limit of `n`, the report holds at most `n` entries, ascending by count; no entry
/// left out has a higher count than one shown; and fewer than `n` are shown only when every
/// entry above the threshold is.
pub proof fn law_top_results(
    e: Seq<(Seq<char>, u32)>,
    threshold: Option<u32>,
    n: usize,
    ix: Seq<int>,
)
    requires
        is_selection(e, threshold, Some(n), ix),
    ensures
        ix.len() <= n,
        forall|a: int, b: int| 0 <= a < b < ix.len() ==> e[ix[a]].1 <= e[ix[b]].1,
        forall|j: int, a: int|
            #![trigger eligible(e, threshold, j), ix[a]]
            eligible(e, threshold, j) && !ix.contains(j) && 0 <= a < ix.len() ==> e[j].1 <= e[ix[a]].1,
        ix.len() < n ==> forall|j: int| eligible(e, threshold, j) ==> ix.contains(j),
{
    assert forall|a: int, b: int| 0 <= a < b < ix.len() implies e[ix[a]].1 <= e[ix[b]].1 by {
        assert(ranks_below(e, ix[a], ix[b]));
    }
}

} // verus!
