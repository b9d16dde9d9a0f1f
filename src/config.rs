use vstd::prelude::*;

verus! {

/// Why the configuration of a run was refused.
#[derive(Debug, Clone, PartialEq, Eq)]
pub enum ConfigError {
    /// The pattern is not a valid regular expression.
    InvalidPattern { pattern: String },
    /// Matches are counted from one.
    ZeroKey,
    /// `{host}` asked for while name lookups are switched off.
    HostWithNumeric,
}

/// `t` occurs in `s` as a contiguous run.
pub open spec fn occurs_in(s: Seq<char>, t: Seq<char>) -> bool {
    exists|i: int| 0 <= i && i + t.len() <= s.len() && #[trigger] s.subrange(i, i + t.len()) == t
}

/// The host placeholder.
pub open spec fn host_placeholder() -> Seq<char> {
    seq!['{', 'h', 'o', 's', 't', '}']
}

/// The template used when none is given and names are not looked up.
pub open spec fn numeric_template() -> Seq<char> {
    seq!['{', 'c', 'n', 't', '}', ' ', '{', 'i', 'p', '}']
}

/// The template used when none is given and names are looked up.
pub open spec fn named_template() -> Seq<char> {
    numeric_template().subrange(0, 6) + host_placeholder() + seq![' ', '('] + numeric_template().subrange(6, 10) + seq![')']
}

/// Whether `t` occurs in `s`.
pub fn contains_text(s: &str, t: &str) -> (r: bool)
    ensures
        r == occurs_in(s@, t@),
{
    let n = s.unicode_len();
    let m = t.unicode_len();
    if m > n {
        proof {
            assert forall|i: int| 0 <= i && i + t@.len() <= s@.len() implies #[trigger] s@.subrange(i, i + t@.len()) != t@ by {}
        }
        return false;
    }
    let mut i: usize = 0;
    while i <= n - m
        invariant
            n == s@.len(),
            m == t@.len(),
            m <= n,
            i <= n - m + 1,
            forall|p: int| 0 <= p < i ==> #[trigger] s@.subrange(p, p + m) != t@,
        decreases n - i,
    {
        let mut j: usize = 0;
        let mut same = true;
        while j < m
            invariant
                n == s@.len(),
                m == t@.len(),
                i + m <= n,
                j <= m,
                same == forall|q: int| 0 <= q < j ==> s@[i + q] == t@[q],
            decreases m - j,
        {
            if s.get_char(i + j) != t.get_char(j) {
                same = false;
            }
            j = j + 1;
        }
        if same {
            assert(s@.subrange(i as int, i + m) =~= t@);
            return true;
        }
        proof {
            let q = choose|q: int| 0 <= q < m && s@[i + q] != t@[q];
            assert(s@.subrange(i as int, i + m)[q] != t@[q]);
        }
        i = i + 1;
    }
    false
}

/// The output template of a run: the given one, unless it asks for `{host}` while names are
/// not looked up; else the default for the mode.
pub fn resolve_format(format: Option<&str>, numeric: bool) -> (r: Result<String, ConfigError>)
    ensures
        match format {
            Some(f) => if numeric && occurs_in(f@, host_placeholder()) {
                r == Err::<String, ConfigError>(ConfigError::HostWithNumeric)
            } else {
                r matches Ok(t) && t@ == f@
            },
            None => r matches Ok(t) && t@ == if numeric {
                numeric_template()
            } else {
                named_template()
            },
        },
{
    broadcast use vstd::string::group_string_axioms;

    match format {
        Some(f) => {
            let host = "{host}";
            proof {
                reveal_strlit("{host}");
                assert(host@ =~= host_placeholder());
            }
            if numeric && contains_text(f, host) {
                Err(ConfigError::HostWithNumeric)
            } else {
                Ok(f.to_string())
            }
        },
        None => {
            if numeric {
                let t = "{cnt} {ip}";
                proof {
                    reveal_strlit("{cnt} {ip}");
                    assert(t@ =~= numeric_template());
                }
                Ok(t.to_string())
            } else {
                let t = "{cnt} {host} ({ip})";
                proof {
                    reveal_strlit("{cnt} {host} ({ip})");
                    assert(t@ =~= named_template());
                }
                Ok(t.to_string())
            }
        },
    }
}

/// The position of the match to use on each line, counted from one.
pub fn check_key(key: usize) -> (r: Result<usize, ConfigError>)
    ensures
        if key == 0 {
            r == Err::<usize, ConfigError>(ConfigError::ZeroKey)
        } else {
            r == Ok::<usize, ConfigError>(key)
        },
{
    if key == 0 {
        Err(ConfigError::ZeroKey)
    } else {
        Ok(key)
    }
}

} // verus!
