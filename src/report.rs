use crate::table::FrequencyTable;
use std::collections::HashMap;
use vstd::prelude::*;

verus! {

#[verifier::external_type_specification]
#[verifier::external_body]
pub struct ExFmtError(strfmt::FmtError);

/// What `strfmt::strfmt` makes of a template and a set of named values, if it accepts them.
pub uninterp spec fn strfmt_of(template: Seq<char>, vars: Seq<(Seq<char>, Seq<char>)>) -> Option<
    Seq<char>,
>;

/// The decimal digits of `n`, without sign or leading zeros.
pub open spec fn decimal(n: nat) -> Seq<char>
    decreases n,
{
    if n < 10 {
        seq![digit(n)]
    } else {
        decimal(n / 10).push(digit(n % 10))
    }
}

/// The character of a decimal digit.
pub open spec fn digit(d: nat) -> char {
    seq!['0', '1', '2', '3', '4', '5', '6', '7', '8', '9'][d as int]
}

/// Relies on the `Display` of `u32` behind `to_string`: its decimal digits.
#[verifier::external_body]
fn u32_text(n: u32) -> (r: String)
    ensures
        r@ == decimal(n as nat),
{
    n.to_string()
}

/// Relies on strfmt::strfmt: fills the named placeholders of `template` from `vars`.
#[verifier::external_body]
fn fill_template(template: &str, vars: &Vec<(String, String)>) -> (r: Result<
    String,
    strfmt::FmtError,
>)
    ensures
        match r {
            Ok(s) => strfmt_of(template@, pairs_view(vars@)) == Some(s@),
            Err(_) => strfmt_of(template@, pairs_view(vars@)) is None,
        },
{
    let map: HashMap<String, String> = vars.iter().cloned().collect();
    strfmt::strfmt(template, &map)
}

/// The view of a list of named values.
pub open spec fn pairs_view(v: Seq<(String, String)>) -> Seq<(Seq<char>, Seq<char>)> {
    v.map_values(|p: (String, String)| (p.0@, p.1@))
}

/// The named values of one report line: `cnt`, `ip` and, where looked up, `host`.
pub open spec fn line_vars(ip: Seq<char>, count: u32, host: Option<Seq<char>>) -> Seq<
    (Seq<char>, Seq<char>),
> {
    let base = seq![(seq!['c', 'n', 't'], decimal(count as nat)), (seq!['i', 'p'], ip)];
    match host {
        Some(h) => base.push((seq!['h', 'o', 's', 't'], h)),
        None => base,
    }
}

/// Why a report line could not be made.
#[derive(Debug, Clone, PartialEq, Eq)]
pub enum ReportError {
    /// The template is malformed or names a value the line does not have.
    Format { template: String },
}

/// The named values of one report line.
pub fn record_vars(ip: &str, count: u32, host: Option<&str>) -> (r: Vec<(String, String)>)
    ensures
        pairs_view(r@) == line_vars(ip@, count, match host {
            Some(h) => Some(h@),
            None => None,
        }),
{
    broadcast use vstd::string::group_string_axioms;

    let cnt = "cnt";
    let ipk = "ip";
    proof {
        reveal_strlit("cnt");
        reveal_strlit("ip");
        assert(cnt@ =~= seq!['c', 'n', 't']);
        assert(ipk@ =~= seq!['i', 'p']);
    }
    let mut v: Vec<(String, String)> = Vec::new();
    v.push((cnt.to_string(), u32_text(count)));
    v.push((ipk.to_string(), ip.to_string()));
    match host {
        Some(h) => {
            let hk = "host";
            proof {
                reveal_strlit("host");
                assert(hk@ =~= seq!['h', 'o', 's', 't']);
            }
            v.push((hk.to_string(), h.to_string()));
        },
        None => {},
    }
    proof {
        let hv = match host {
            Some(h) => Some(h@),
            None => None,
        };
        assert(pairs_view(v@) =~= line_vars(ip@, count, hv));
    }
    v
}

/// One line of the report: the template filled with the entry's count, address and, where
/// looked up, host name.
pub fn render_entry(template: &str, ip: &str, count: u32, host: Option<&str>) -> (r: Result<
    String,
    ReportError,
>)
    ensures
        ({
            let hv = match host {
                Some(h) => Some(h@),
                None => None,
            };
            match strfmt_of(template@, line_vars(ip@, count, hv)) {
                Some(s) => r matches Ok(t) && t@ == s,
                None => r matches Err(ReportError::Format { template: t }) && t@ == template@,
            }
        }),
{
    broadcast use vstd::string::group_string_axioms;

    let vars = record_vars(ip, count, host);
    match fill_template(template, &vars) {
        Ok(s) => Ok(s),
        Err(_) => Err(ReportError::Format { template: template.to_string() }),
    }
}

/// Whether a count survives the threshold: it must lie strictly above it.
pub open spec fn passes(count: u32, threshold: Option<u32>) -> bool {
    match threshold {
        Some(t) => count > t,
        None => true,
    }
}

/// Entry `i` comes before entry `j` in the report: a lower count, or the same count and an
/// earlier first appearance.
pub open spec fn ranks_below(e: Seq<(Seq<char>, u32)>, i: int, j: int) -> bool {
    e[i].1 < e[j].1 || (e[i].1 == e[j].1 && i < j)
}

/// Entry `j` of `e` survives the threshold.
pub open spec fn eligible(e: Seq<(Seq<char>, u32)>, threshold: Option<u32>, j: int) -> bool {
    0 <= j < e.len() && passes(e[j].1, threshold)
}

/// `ix` lists, in ascending rank, the positions of the entries that the report shows: those
/// above the threshold and, where a limit is given, only the highest ranked of them up to it.
pub open spec fn is_selection(
    e: Seq<(Seq<char>, u32)>,
    threshold: Option<u32>,
    max_results: Option<usize>,
    ix: Seq<int>,
) -> bool {
    &&& forall|a: int| 0 <= a < ix.len() ==> eligible(e, threshold, #[trigger] ix[a])
    &&& forall|a: int, b: int| 0 <= a < b < ix.len() ==> ranks_below(e, ix[a], ix[b])
    &&& forall|j: int, a: int|
        #![trigger eligible(e, threshold, j), ix[a]]
        eligible(e, threshold, j) && !ix.contains(j) && 0 <= a < ix.len() ==> ranks_below(
            e,
            j,
            ix[a],
        )
    &&& max_results matches Some(n) ==> ix.len() <= n
    &&& (match max_results {
        Some(n) => ix.len() < n,
        None => true,
    }) ==> forall|j: int| eligible(e, threshold, j) ==> ix.contains(j)
}

/// The entries at the positions `ix`, in that order.
pub open spec fn pick(e: Seq<(Seq<char>, u32)>, ix: Seq<int>) -> Seq<(Seq<char>, u32)> {
    ix.map_values(|i: int| e[i])
}

/// The view of the report's entries.
pub open spec fn entries_view(r: Seq<(String, u32)>) -> Seq<(Seq<char>, u32)> {
    r.map_values(|p: (String, u32)| (p.0@, p.1))
}

/// Pairs of (count, position) in lexicographic order, as std orders tuples.
pub open spec fn pair_le(a: (u32, usize), b: (u32, usize)) -> bool {
    a.0 < b.0 || (a.0 == b.0 && a.1 <= b.1)
}

/// Relies on slice::sort: the pairs are put in ascending order of the tuple ordering,
/// and no pair is added or lost.
#[verifier::external_body]
fn sort_pairs(v: &mut Vec<(u32, usize)>)
    ensures
        final(v)@.to_multiset() == old(v)@.to_multiset(),
        forall|a: int, b: int|
            0 <= a < b < final(v)@.len() ==> pair_le(final(v)@[a], final(v)@[b]),
{
    v.sort();
}

/// The entries that the report shows, in the order it shows them: the entries above the
/// threshold, ascending by count (ties in order of first appearance), cut to the
/// `max_results` highest.
pub fn select_entries(
    table: &FrequencyTable,
    threshold: Option<u32>,
    max_results: Option<usize>,
) -> (r: Vec<(String, u32)>)
    requires
        table.wf(),
    ensures
        exists|ix: Seq<int>|
            is_selection(table.entries(), threshold, max_results, ix) && entries_view(r@) == pick(
                table.entries(),
                ix,
            ),
{
    let ghost e = table.entries();
    let n = table.len();
    let mut ranked: Vec<(u32, usize)> = Vec::new();
    let mut i: usize = 0;
    while i < n
        invariant
            table.wf(),
            e == table.entries(),
            n == e.len(),
            i <= n,
            forall|a: int|
                0 <= a < ranked@.len() ==> {
                    let p = #[trigger] ranked@[a];
                    &&& p.1 < i
                    &&& eligible(e, threshold, p.1 as int)
                    &&& p.0 == e[p.1 as int].1
                },
            forall|a: int, b: int| 0 <= a < b < ranked@.len() ==> ranked@[a].1 < ranked@[b].1,
            forall|j: int|
                0 <= j < i && eligible(e, threshold, j) ==> exists|a: int|
                    0 <= a < ranked@.len() && (#[trigger] ranked@[a]).1 == j,
        decreases n - i,
    {
        let (_, c) = table.entry(i);
        let keep = match threshold {
            Some(t) => c > t,
            None => true,
        };
        let ghost prev = ranked@;
        if keep {
            ranked.push((c, i));
        }
        proof {
            assert forall|j: int|
                0 <= j < i + 1 && eligible(e, threshold, j) implies exists|a: int|
                0 <= a < ranked@.len() && (#[trigger] ranked@[a]).1 == j by {
                if j < i {
                    let a = choose|a: int| 0 <= a < prev.len() && (#[trigger] prev[a]).1 == j;
                    assert(ranked@[a] == prev[a]);
                } else {
                    assert(ranked@[ranked@.len() - 1].1 == i);
                }
            }
        }
        i = i + 1;
    }
    let ghost unsorted = ranked@;
    proof {
        assert(unsorted.no_duplicates());
        unsorted.lemma_multiset_has_no_duplicates();
    }
    sort_pairs(&mut ranked);
    proof {
        broadcast use vstd::seq_lib::to_multiset_contains;

        ranked@.lemma_multiset_has_no_duplicates_conv();
        assert forall|a: int| 0 <= a < ranked@.len() implies {
            let p = #[trigger] ranked@[a];
            &&& eligible(e, threshold, p.1 as int)
            &&& p.0 == e[p.1 as int].1
        } by {
            assert(ranked@.to_multiset().count(ranked@[a]) > 0);
            assert(unsorted.contains(ranked@[a]));
        }
        assert forall|j: int| eligible(e, threshold, j) implies exists|a: int|
            0 <= a < ranked@.len() && (#[trigger] ranked@[a]).1 == j by {
            let b = choose|b: int| 0 <= b < unsorted.len() && (#[trigger] unsorted[b]).1 == j;
            assert(unsorted.to_multiset().count(unsorted[b]) > 0);
            assert(ranked@.contains(unsorted[b]));
        }
    }
    let len = ranked.len();
    let start: usize = match max_results {
        Some(m) => if m < len {
            len - m
        } else {
            0
        },
        None => 0,
    };
    let ghost ix = ranked@.subrange(start as int, len as int).map_values(
        |p: (u32, usize)| p.1 as int,
    );
    proof {
        assert forall|a: int, b: int| 0 <= a < b < len implies ranks_below(
            e,
            ranked@[a].1 as int,
            ranked@[b].1 as int,
        ) by {
            assert(pair_le(ranked@[a], ranked@[b]));
            assert(ranked@[a] != ranked@[b]);
            assert(eligible(e, threshold, ranked@[a].1 as int));
            assert(eligible(e, threshold, ranked@[b].1 as int));
        }
        assert forall|j: int, a: int|
            #![trigger eligible(e, threshold, j), ix[a]]
            eligible(e, threshold, j) && !ix.contains(j) && 0 <= a < ix.len() implies ranks_below(
            e,
            j,
            ix[a],
        ) by {
            let c = choose|c: int| 0 <= c < ranked@.len() && (#[trigger] ranked@[c]).1 == j;
            if c >= start {
                assert(ix[c - start] == j);
            }
            assert(ranked@[c] != ranked@[start + a]);
        }
        assert forall|j: int| start == 0 && eligible(e, threshold, j) implies ix.contains(j) by {
            let c = choose|c: int| 0 <= c < ranked@.len() && (#[trigger] ranked@[c]).1 == j;
            assert(ix[c] == j);
        }
        assert(is_selection(e, threshold, max_results, ix));
    }
    let mut out: Vec<(String, u32)> = Vec::new();
    let mut k: usize = start;
    while k < len
        invariant
            table.wf(),
            e == table.entries(),
            start <= k <= len,
            len == ranked@.len(),
            ix == ranked@.subrange(start as int, len as int).map_values(
                |p: (u32, usize)| p.1 as int,
            ),
            is_selection(e, threshold, max_results, ix),
            forall|a: int|
                0 <= a < ranked@.len() ==> {
                    let p = #[trigger] ranked@[a];
                    &&& eligible(e, threshold, p.1 as int)
                    &&& p.0 == e[p.1 as int].1
                },
            entries_view(out@) == pick(e, ix.subrange(0, k - start)),
        decreases len - k,
    {
        let (key, c) = table.entry(ranked[k].1);
        let owned = key.clone();
        let ghost prev = out@;
        out.push((owned, c));
        proof {
            assert(owned@ == e[ranked@[k as int].1 as int].0);
            assert(ix[k - start] == ranked@[k as int].1 as int);
            assert(entries_view(out@) =~= entries_view(prev).push((owned@, c)));
            assert(pick(e, ix.subrange(0, k + 1 - start)) =~= pick(e, ix.subrange(0, k - start)).push(
                e[ix[k - start]],
            ));
            assert(entries_view(out@) =~= pick(e, ix.subrange(0, k + 1 - start)));
        }
        k = k + 1;
    }
    proof {
        assert(ix.subrange(0, len - start) =~= ix);
    }
    out
}

} // verus!
