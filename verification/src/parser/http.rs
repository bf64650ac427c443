//! HTTP request lines, recognized by two regular expressions of the
//! `regex` crate:
//!
//! - `GET /api/users 200 42ms` (the duration is optional);
//! - `"GET /api/products HTTP/1.1" 200` (Apache combined log style).

use vstd::prelude::*;
use crate::model::{http_view, HttpInfo, HttpInfoView};
use crate::text::{all_digits, chars_of, digits_value, is_digit, parse_u16, parse_u64, parse_unsigned};

verus! {

/// `GET /api/users 200 42ms`, the duration optional.
pub const SIMPLE_PATTERN: &'static str =
    "^(GET|POST|PUT|PATCH|DELETE|HEAD|OPTIONS)\\s+(\\S+)\\s+(\\d{3})(?:\\s+(\\d+)ms)?";

/// `"GET /path HTTP/1.1" 200`.
pub const COMBINED_PATTERN: &'static str =
    "\"(GET|POST|PUT|PATCH|DELETE|HEAD|OPTIONS)\\s+(\\S+)\\s+HTTP/[\\d.]+\"\\s+(\\d{3})";

/// What `regex::Regex::new(pattern)` and then `captures(hay)` give: `None`
/// when the pattern does not compile or does not match, else the text of
/// each capture group in order (group 0 is the whole match), `None` for a
/// group that took no part in the match.
pub uninterp spec fn regex_captures(pattern: Seq<char>, hay: Seq<char>) -> Option<
    Seq<Option<Seq<char>>>,
>;

/// The texts of a list of capture groups.
pub open spec fn groups_view(caps: Vec<Option<String>>) -> Seq<Option<Seq<char>>> {
    caps@.map_values(
        |g: Option<String>|
            match g {
                Some(s) => Some(s@),
                None => None,
            },
    )
}

/// Matches `hay` against `pattern` with the `regex` crate and returns the
/// text of every capture group. Trusted: the result is the named one.
#[verifier::external_body]
fn captures(pattern: &str, hay: &str) -> (r: Option<Vec<Option<String>>>)
    ensures
        r matches Some(c) ==> regex_captures(pattern@, hay@) == Some(groups_view(c)),
        r is None ==> regex_captures(pattern@, hay@) is None,
{
    let re = match regex::Regex::new(pattern) {
        Ok(re) => re,
        Err(_) => return None,
    };
    let caps = re.captures(hay)?;
    let mut groups = Vec::new();
    for g in caps.iter() {
        groups.push(match g {
            Some(m) => Some(m.as_str().to_string()),
            None => None,
        });
    }
    Some(groups)
}

/// Capture group `i`, `None` when there is no such group or it did not
/// take part in the match.
pub open spec fn group(caps: Seq<Option<Seq<char>>>, i: int) -> Option<Seq<char>> {
    if 0 <= i < caps.len() {
        caps[i]
    } else {
        None
    }
}

/// `s.parse::<u64>().ok()`.
pub open spec fn parse_u64_spec(s: Seq<char>) -> Option<u64> {
    match parse_unsigned(s, u64::MAX as nat) {
        Some(v) => Some(v as u64),
        None => None,
    }
}

/// Request info from the groups of a match: method, path, status and, when
/// `with_duration`, the optional duration in group 4. `None` when a group
/// is missing or the status is not a `u16` number.
pub open spec fn info_from_groups(caps: Seq<Option<Seq<char>>>, with_duration: bool) -> Option<
    HttpInfoView,
> {
    match (group(caps, 1), group(caps, 2), group(caps, 3)) {
        (Some(method), Some(path), Some(status)) => match parse_unsigned(status, u16::MAX as nat) {
            Some(code) => Some(
                HttpInfoView {
                    method,
                    path,
                    status: code as u16,
                    duration_ms: if with_duration {
                        match group(caps, 4) {
                            Some(d) => parse_u64_spec(d),
                            None => None,
                        }
                    } else {
                        None
                    },
                },
            ),
            None => None,
        },
        _ => None,
    }
}

/// The duration of a simple request line is the number written by the
/// digits of capture group 4, however large, as long as it fits in a
/// `u64`; a request whose group 4 took no part in the match has no
/// duration.
pub proof fn lemma_duration_from_group(caps: Seq<Option<Seq<char>>>, d: Seq<char>)
    requires
        info_from_groups(caps, true) is Some,
    ensures
        caps.len() > 4 && caps[4] == Some(d) && d.len() > 0 && all_digits(d) && digits_value(d)
            <= u64::MAX ==> info_from_groups(caps, true)->0.duration_ms == Some(
            digits_value(d) as u64,
        ),
        (caps.len() <= 4 || caps[4] is None) ==> info_from_groups(caps, true)->0.duration_ms is None,
{
    if caps.len() > 4 && caps[4] == Some(d) && d.len() > 0 && all_digits(d) && digits_value(d) <= u64::MAX {
        assert(d[0] != '+') by {
            assert(is_digit(d[0]));
        }
    }
}

/// What `parse` gives, from the outcome of the two regular expressions.
pub open spec fn info_from_matches(
    simple: Option<Seq<Option<Seq<char>>>>,
    combined: Option<Seq<Option<Seq<char>>>>,
) -> Option<HttpInfoView> {
    match simple {
        Some(caps) => info_from_groups(caps, true),
        None => match combined {
            Some(caps) => info_from_groups(caps, false),
            None => None,
        },
    }
}

/// What `parse` gives for `message`.
pub open spec fn parse_spec(message: Seq<char>) -> Option<HttpInfoView> {
    info_from_matches(
        regex_captures(SIMPLE_PATTERN@, message),
        regex_captures(COMBINED_PATTERN@, message),
    )
}

fn group_at(caps: &Vec<Option<String>>, i: usize) -> (r: Option<Vec<char>>)
    ensures
        r matches Some(v) ==> group(groups_view(*caps), i as int) == Some(v@),
        r is None ==> group(groups_view(*caps), i as int) is None,
{
    if i < caps.len() {
        match &caps[i] {
            Some(s) => Some(chars_of(s.as_str())),
            None => None,
        }
    } else {
        None
    }
}

/// Request info from the capture groups of a match, for every outcome of
/// the regular expression.
pub fn info_from_captures(caps: &Vec<Option<String>>, with_duration: bool) -> (r: Option<HttpInfo>)
    ensures
        http_view(r) == info_from_groups(groups_view(*caps), with_duration),
{
    let method = match group_at(caps, 1) {
        Some(m) => m,
        None => return None,
    };
    let path = match group_at(caps, 2) {
        Some(p) => p,
        None => return None,
    };
    let status_text = match group_at(caps, 3) {
        Some(s) => s,
        None => return None,
    };
    let status = match parse_u16(status_text.as_slice()) {
        Some(code) => code,
        None => return None,
    };
    let duration_ms = if with_duration {
        match group_at(caps, 4) {
            Some(d) => parse_u64(d.as_slice()),
            None => None,
        }
    } else {
        None
    };
    Some(
        HttpInfo {
            method: crate::text::string_of(method.as_slice()),
            path: crate::text::string_of(path.as_slice()),
            status,
            duration_ms,
        },
    )
}

/// Tries to extract HTTP request info from a line's message; `None` when
/// the line does not look like an HTTP request log.
pub fn parse(message: &str) -> (r: Option<HttpInfo>)
    ensures
        http_view(r) == parse_spec(message@),
{
    let simple = captures(SIMPLE_PATTERN, message);
    match simple {
        Some(caps) => info_from_captures(&caps, true),
        None => {
            let combined = captures(COMBINED_PATTERN, message);
            match combined {
                Some(caps) => info_from_captures(&caps, false),
                None => None,
            }
        },
    }
}

} // verus!
