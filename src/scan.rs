use crate::config::ConfigError;
use crate::table::{bump, count_in, normalize, normalize_address, FrequencyTable, ScanError};
use regex::Regex;
use vstd::prelude::*;

verus! {

#[verifier::external_type_specification]
#[verifier::external_body]
pub struct ExRegex(Regex);

#[verifier::external_type_specification]
#[verifier::external_body]
pub struct ExRegexError(regex::Error);

/// Whether `regex::Regex::new` accepts the pattern.
pub uninterp spec fn regex_compiles(pattern: Seq<char>) -> bool;

/// The non-overlapping matches, left to right, of the regex compiled from `pattern` in `haystack`.
pub uninterp spec fn regex_matches(pattern: Seq<char>, haystack: Seq<char>) -> Seq<Seq<char>>;

/// The text with leading and trailing whitespace removed, as `str::trim` gives it.
pub uninterp spec fn trimmed(s: Seq<char>) -> Seq<char>;

/// The built-in pattern: IPv4-mapped IPv6 addresses and the general IPv6 forms, with zone suffixes.
pub const DEFAULT_PATTERN: &'static str = r"((::ffff:)(?:[0-9]{1,3}\.){3}[0-9]{1,3})|((([0-9a-f]{1,4}:){7}([0-9a-f]{1,4}|:))|(([0-9a-f]{1,4}:){6}(:[0-9a-f]{1,4}|((25[0-5]|2[0-4][0-9]|1[0-9][0-9]|[1-9]?[0-9])(\.(25[0-5]|2[0-4][0-9]|1[0-9][0-9]|[1-9]?[0-9])){3})|:))|(([0-9a-f]{1,4}:){5}(((:[0-9a-f]{1,4}){1,2})|:((25[0-5]|2[0-4][0-9]|1[0-9][0-9]|[1-9]?[0-9])(\.(25[0-5]|2[0-4][0-9]|1[0-9][0-9]|[1-9]?[0-9])){3})|:))|(([0-9a-f]{1,4}:){4}(((:[0-9a-f]{1,4}){1,3})|((:[0-9a-f]{1,4})?:((25[0-5]|2[0-4][0-9]|1[0-9][0-9]|[1-9]?[0-9])(\.(25[0-5]|2[0-4][0-9]|1[0-9][0-9]|[1-9]?[0-9])){3}))|:))|(([0-9a-f]{1,4}:){3}(((:[0-9a-f]{1,4}){1,4})|((:[0-9a-f]{1,4}){0,2}:((25[0-5]|2[0-4][0-9]|1[0-9][0-9]|[1-9]?[0-9])(\.(25[0-5]|2[0-4][0-9]|1[0-9][0-9]|[1-9]?[0-9])){3}))|:))|(([0-9a-f]{1,4}:){2}(((:[0-9a-f]{1,4}){1,5})|((:[0-9a-f]{1,4}){0,3}:((25[0-5]|2[0-4][0-9]|1[0-9][0-9]|[1-9]?[0-9])(\.(25[0-5]|2[0-4][0-9]|1[0-9][0-9]|[1-9]?[0-9])){3}))|:))|(([0-9a-f]{1,4}:){1}(((:[0-9a-f]{1,4}){1,6})|((:[0-9a-f]{1,4}){0,4}:((25[0-5]|2[0-4][0-9]|1[0-9][0-9]|[1-9]?[0-9])(\.(25[0-5]|2[0-4][0-9]|1[0-9][0-9]|[1-9]?[0-9])){3}))|:))|(:(((:[0-9a-f]{1,4}){1,7})|((:[0-9a-f]{1,4}){0,5}:((25[0-5]|2[0-4][0-9]|1[0-9][0-9]|[1-9]?[0-9])(\.(25[0-5]|2[0-4][0-9]|1[0-9][0-9]|[1-9]?[0-9])){3}))|:)))(%.+)?";

/// A pattern that a line's candidate addresses are matched with.
/// The compiled regex is always the one built from `source`.
pub struct MatchPattern {
    source: String,
    regex: Regex,
}

impl View for MatchPattern {
    type V = Seq<char>;

    closed spec fn view(&self) -> Seq<char> {
        self.source@
    }
}

/// Relies on regex::Regex::new: whether it succeeds depends on the pattern text alone.
#[verifier::external_body]
fn compile_regex(pattern: &str) -> (r: Result<Regex, regex::Error>)
    ensures
        r is Ok == regex_compiles(pattern@),
{
    Regex::new(pattern)
}

/// Relies on regex::Regex::find_iter and Match::as_str: the `n`-th match (from zero) of the
/// regex in `line`. The regex of a `MatchPattern` is always compiled from its source.
#[verifier::external_body]
fn nth_match(p: &MatchPattern, line: &str, n: usize) -> (r: Option<String>)
    ensures
        match r {
            Some(m) => n < regex_matches(p@, line@).len() && m@ == regex_matches(p@, line@)[n as int],
            None => n >= regex_matches(p@, line@).len(),
        },
{
    p.regex.find_iter(line).nth(n).map(|m| m.as_str().to_string())
}

/// Relies on str::trim: the line without leading and trailing whitespace.
#[verifier::external_body]
fn trim_text(s: &str) -> (r: &str)
    ensures
        r@ == trimmed(s@),
{
    s.trim()
}

impl MatchPattern {
    /// Compiles `source` into a pattern.
    pub fn new(source: &str) -> (r: Result<MatchPattern, ConfigError>)
        ensures
            match r {
                Ok(p) => regex_compiles(source@) && p@ == source@,
                Err(e) => !regex_compiles(source@) && (e matches ConfigError::InvalidPattern {
                    pattern,
                } && pattern@ == source@),
            },
    {
        broadcast use vstd::string::group_string_axioms;

        match compile_regex(source) {
            Ok(regex) => Ok(MatchPattern { source: source.to_string(), regex }),
            Err(_) => Err(ConfigError::InvalidPattern { pattern: source.to_string() }),
        }
    }

    /// The text the pattern was compiled from.
    pub fn source(&self) -> (r: &str)
        ensures
            r@ == self@,
    {
        self.source.as_str()
    }
}

/// The substring taken from a line before normalization: the whole trimmed line in fixed mode,
/// else the `key`-th match of the pattern, counted from one.
pub open spec fn line_candidate(pattern: Seq<char>, line: Seq<char>, key: nat, fixed: bool) -> Option<
    Seq<char>,
> {
    if fixed {
        Some(trimmed(line))
    } else if 1 <= key <= regex_matches(pattern, line).len() {
        Some(regex_matches(pattern, line)[key - 1])
    } else {
        None
    }
}

/// The table key that a line yields, if any.
pub open spec fn line_key(pattern: Seq<char>, line: Seq<char>, key: nat, fixed: bool) -> Option<
    Seq<char>,
> {
    match line_candidate(pattern, line, key, fixed) {
        Some(c) => if normalize(c).len() > 0 {
            Some(normalize(c))
        } else {
            None
        },
        None => None,
    }
}

/// The counts after the lines have been tallied into `m`, one after another.
pub open spec fn tally(
    m: Map<Seq<char>, nat>,
    pattern: Seq<char>,
    lines: Seq<Seq<char>>,
    key: nat,
    fixed: bool,
) -> Map<Seq<char>, nat>
    decreases lines.len(),
{
    if lines.len() == 0 {
        m
    } else {
        let before = tally(m, pattern, lines.drop_last(), key, fixed);
        match line_key(pattern, lines.last(), key, fixed) {
            Some(k) => bump(before, k),
            None => before,
        }
    }
}

/// The text of each line.
pub open spec fn texts(lines: Seq<String>) -> Seq<Seq<char>> {
    lines.map_values(|l: String| l@)
}

/// Tallies the candidate found in `line`, or deals with its absence: a missing candidate,
/// or one that normalizes to nothing, fails the line only where `strict` is set.
pub fn record_candidate(
    table: &mut FrequencyTable,
    candidate: Option<&str>,
    line: &str,
    strict: bool,
) -> (r: Result<(), ScanError>)
    requires
        old(table).wf(),
    ensures
        final(table).wf(),
        if candidate is Some && normalize(candidate->Some_0@).len() > 0 {
            let k = normalize(candidate->Some_0@);
            if count_in(old(table).counts_map(), k) < u32::MAX {
                r is Ok && final(table).counts_map() == bump(old(table).counts_map(), k)
            } else {
                &&& r matches Err(ScanError::CountOverflow { address }) && address@ == k
                &&& final(table).counts_map() == old(table).counts_map()
            }
        } else {
            &&& final(table).counts_map() == old(table).counts_map()
            &&& final(table).entries() == old(table).entries()
            &&& if strict {
                r matches Err(ScanError::NoAddress { line: l }) && l@ == line@
            } else {
                r is Ok
            }
        },
{
    broadcast use vstd::string::group_string_axioms;

    match candidate {
        Some(c) => {
            if normalize_address(c).as_str().unicode_len() > 0 {
                return table.record(c);
            }
        },
        None => {},
    }
    if strict {
        Err(ScanError::NoAddress { line: line.to_string() })
    } else {
        Ok(())
    }
}

/// Scans one line: picks its candidate address and tallies it.
pub fn scan_line(
    table: &mut FrequencyTable,
    pattern: &MatchPattern,
    line: &str,
    key: usize,
    pedantic: bool,
    fixed: bool,
) -> (r: Result<(), ScanError>)
    requires
        old(table).wf(),
        key >= 1,
    ensures
        final(table).wf(),
        match line_key(pattern@, line@, key as nat, fixed) {
            Some(k) => {
                if count_in(old(table).counts_map(), k) < u32::MAX {
                    r is Ok && final(table).counts_map() == bump(old(table).counts_map(), k)
                } else {
                    &&& r matches Err(ScanError::CountOverflow { address }) && address@ == k
                    &&& final(table).counts_map() == old(table).counts_map()
                }
            },
            None => {
                &&& final(table).counts_map() == old(table).counts_map()
                &&& if pedantic && !fixed {
                    r matches Err(ScanError::NoAddress { line: l }) && l@ == line@
                } else {
                    r is Ok
                }
            },
        },
{
    if fixed {
        let t = trim_text(line);
        record_candidate(table, Some(t), line, false)
    } else {
        match nth_match(pattern, line, key - 1) {
            Some(m) => record_candidate(table, Some(m.as_str()), line, pedantic),
            None => record_candidate(table, None, line, pedantic),
        }
    }
}

/// Tallying more lines never lowers a count.
pub proof fn lemma_tally_grows(
    m: Map<Seq<char>, nat>,
    pattern: Seq<char>,
    lines: Seq<Seq<char>>,
    j: int,
    key: nat,
    fixed: bool,
    k: Seq<char>,
)
    requires
        0 <= j <= lines.len(),
    ensures
        count_in(tally(m, pattern, lines.subrange(0, j), key, fixed), k) <= count_in(
            tally(m, pattern, lines, key, fixed),
            k,
        ),
    decreases lines.len(),
{
    if j < lines.len() {
        lemma_tally_grows(m, pattern, lines.drop_last(), j, key, fixed, k);
        assert(lines.drop_last().subrange(0, j) =~= lines.subrange(0, j));
    } else {
        assert(lines.subrange(0, j) =~= lines);
    }
}

/// Scans the lines in order into the table, stopping at the first error.
pub fn scan_lines(
    table: &mut FrequencyTable,
    pattern: &MatchPattern,
    lines: &Vec<String>,
    key: usize,
    pedantic: bool,
    fixed: bool,
) -> (r: Result<(), ScanError>)
    requires
        old(table).wf(),
        key >= 1,
    ensures
        final(table).wf(),
        r is Ok ==> final(table).counts_map() == tally(
            old(table).counts_map(),
            pattern@,
            texts(lines@),
            key as nat,
            fixed,
        ),
        r matches Err(ScanError::NoAddress { line }) ==> pedantic && !fixed && exists|i: int|
            0 <= i < lines@.len() && lines@[i]@ == line@ && line_key(
                pattern@,
                lines@[i]@,
                key as nat,
                fixed,
            ) is None,
        r matches Err(ScanError::CountOverflow { address }) ==> count_in(
            tally(old(table).counts_map(), pattern@, texts(lines@), key as nat, fixed),
            address@,
        ) > u32::MAX,
        (!pedantic || fixed || forall|i: int|
            0 <= i < lines@.len() ==> line_key(pattern@, #[trigger] lines@[i]@, key as nat, fixed)
                is Some) && (forall|k: Seq<char>|
            count_in(
                tally(old(table).counts_map(), pattern@, texts(lines@), key as nat, fixed),
                k,
            ) <= u32::MAX) ==> r is Ok,
{
    let ghost m0 = old(table).counts_map();
    let ghost all = texts(lines@);
    let mut i: usize = 0;
    while i < lines.len()
        invariant
            table.wf(),
            i <= lines@.len(),
            key >= 1,
            all == texts(lines@),
            m0 == old(table).counts_map(),
            table.counts_map() == tally(m0, pattern@, all.subrange(0, i as int), key as nat, fixed),
        decreases lines@.len() - i,
    {
        let ghost before = table.counts_map();
        let res = scan_line(table, pattern, lines[i].as_str(), key, pedantic, fixed);
        proof {
            assert(all.subrange(0, i + 1).drop_last() =~= all.subrange(0, i as int));
            assert(all.subrange(0, i + 1).last() == lines@[i as int]@);
        }
        match res {
            Err(e) => {
                proof {
                    assert(all[i as int] == lines@[i as int]@);
                    assert(tally(m0, pattern@, all.subrange(0, i + 1), key as nat, fixed) == match line_key(pattern@, lines@[i as int]@, key as nat, fixed) {
                        Some(k) => bump(before, k),
                        None => before,
                    });
                    if e is CountOverflow {
                        lemma_tally_grows(
                            m0,
                            pattern@,
                            all,
                            i + 1,
                            key as nat,
                            fixed,
                            e->CountOverflow_address@,
                        );
                    }
                }
                return Err(e);
            },
            Ok(()) => {},
        }
        i = i + 1;
    }
    proof {
        assert(all.subrange(0, i as int) =~= all);
    }
    Ok(())
}

} // verus!
