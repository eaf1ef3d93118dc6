use vstd::prelude::*;

use crate::episode::{slug_from_num_str, Episode};

verus! {

/// What the feed gives for one item: its title, its publication date as
/// RFC 2822 text, and its iTunes subtitle.
pub struct FeedItem {
    pub title: Option<String>,
    pub pub_date: Option<String>,
    pub subtitle: Option<String>,
}

/// Why a feed item does not describe an episode.
pub enum ScraperError {
    MissingTitle,
    MissingPublishDate,
    TitleStructure(String),
}

impl ScraperError {
    /// A sentence that says what went wrong.
    pub fn message(&self) -> (r: String)
        ensures
            r@ == self.message_spec(),
    {
        proof {
            reveal_strlit("Missing title");
            reveal_strlit("Missing date");
            reveal_strlit("Unexpected title structure: '");
            reveal_strlit("'");
        }
        match self {
            ScraperError::MissingTitle => String::from_str("Missing title"),
            ScraperError::MissingPublishDate => String::from_str("Missing date"),
            ScraperError::TitleStructure(t) => {
                let mut s = String::from_str("Unexpected title structure: '");
                s.append(t.as_str());
                s.append("'");
                s
            },
        }
    }

    pub open spec fn message_spec(&self) -> Seq<char> {
        match self {
            ScraperError::MissingTitle => "Missing title"@,
            ScraperError::MissingPublishDate => "Missing date"@,
            ScraperError::TitleStructure(t) => "Unexpected title structure: '"@ + t@ + "'"@,
        }
    }
}

/// The value of a string of decimal digits.
pub open spec fn digits_value(d: Seq<char>) -> int
    decreases d.len(),
{
    if d.len() == 0 {
        0
    } else {
        digits_value(d.drop_last()) * 10 + (d.last() as u32 - 48)
    }
}

/// `d` is one or more ASCII digits.
pub open spec fn is_digits(d: Seq<char>) -> bool {
    &&& d.len() > 0
    &&& forall|i: int| 0 <= i < d.len() ==> 48 <= (#[trigger] d[i] as u32) <= 57
}

/// What `usize::from_str` accepts: an optional `+`, then digits whose value
/// fits.
pub open spec fn decimal_of(s: Seq<char>) -> Option<usize> {
    let d = if s.len() > 0 && s[0] == '+' { s.drop_first() } else { s };
    if is_digits(d) && digits_value(d) <= usize::MAX {
        Some(digits_value(d) as usize)
    } else {
        None
    }
}

/// Relies on `usize::from_str` (std): `Ok` holds the value of an optional `+`
/// followed by ASCII digits, where it fits a `usize`; anything else is an
/// error.
#[verifier::external_body]
pub(crate) fn parse_usize(s: &str) -> (r: Option<usize>)
    ensures
        r == decimal_of(s@),
{
    s.parse::<usize>().ok()
}

/// What a regex `pattern` captures in `group` on `text`.
pub uninterp spec fn regex_group(pattern: Seq<char>, text: Seq<char>, group: Seq<char>) -> Option<Seq<char>>;

pub open spec fn opt_view(o: Option<String>) -> Option<Seq<char>> {
    match o {
        Some(s) => Some(s@),
        None => None,
    }
}

/// Relies on regex's `Regex::new(pattern)` and `Regex::captures(text)`, then
/// `Captures::name(group)`: the text of the named group in the first match,
/// if the pattern compiles, matches, and the group takes part. This depends
/// on the three strings alone.
#[verifier::external_body]
pub(crate) fn capture_group(pattern: &str, text: &str, group: &str) -> (r: Option<String>)
    ensures
        opt_view(r) == regex_group(pattern@, text@, group@),
{
    let re = regex::Regex::new(pattern).ok()?;
    re.captures(text)?.name(group).map(|m| m.as_str().to_string())
}

/// The milliseconds since the Unix epoch of an RFC 2822 date, if it is one.
pub uninterp spec fn rfc2822_millis(s: Seq<char>) -> Option<i64>;

/// Relies on chrono's `DateTime::parse_from_rfc2822` and
/// `DateTime::timestamp_millis`: the instant that the text names, which
/// depends on the text alone.
#[verifier::external_body]
fn parse_rfc2822_millis(s: &str) -> (r: Option<i64>)
    ensures
        r == rfc2822_millis(s@),
{
    chrono::DateTime::parse_from_rfc2822(s).ok().map(|d| d.timestamp_millis())
}

/// The pattern of an episode title: `CD`, an optional `-`, the number, an
/// optional `:`, a space, and the title proper.
pub open spec fn title_pattern() -> Seq<char> {
    "(?i)^cd-?(?P<num_str>\\d+):? (?P<title>.*)$"@
}

/// The episode that a title, its parts as the title pattern captured them,
/// a publication time and a preview describe.
pub open spec fn episode_matches(
    ep: Episode,
    num_str: Seq<char>,
    title: Seq<char>,
    published_at: i64,
    preview: Option<Seq<char>>,
) -> bool {
    &&& ep.slug@ == seq!['C', 'D', '-'] + num_str
    &&& Some(ep.number) == decimal_of(num_str)
    &&& ep.title@ == title
    &&& ep.published_at == published_at
    &&& opt_view(ep.preview) == preview
}

/// Puts an episode together from what the title pattern captured (the number
/// as written, and the title proper) and the parsed publication time. A title
/// that the pattern does not match, or whose number does not fit, is a
/// `TitleStructure` error; a missing or unreadable date is a
/// `MissingPublishDate` error.
pub fn episode_from_parts(
    full_title: String,
    captured: Option<(String, String)>,
    published_at: Option<i64>,
    preview: Option<String>,
) -> (r: Result<Episode, ScraperError>)
    ensures
        match captured {
            None => r matches Err(ScraperError::TitleStructure(t)) && t@ == full_title@,
            Some((num_str, title)) => match decimal_of(num_str@) {
                None => r matches Err(ScraperError::TitleStructure(t)) && t@ == full_title@,
                Some(_) => match published_at {
                    None => r matches Err(ScraperError::MissingPublishDate),
                    Some(ms) => r matches Ok(ep) && episode_matches(
                        ep,
                        num_str@,
                        title@,
                        ms,
                        opt_view(preview),
                    ),
                },
            },
        },
{
    let (num_str, title) = match captured {
        Some(parts) => parts,
        None => {
            return Err(ScraperError::TitleStructure(full_title));
        },
    };
    let number = match parse_usize(num_str.as_str()) {
        Some(n) => n,
        None => {
            return Err(ScraperError::TitleStructure(full_title));
        },
    };
    let slug = slug_from_num_str(num_str.as_str());
    let published_at = match published_at {
        Some(ms) => ms,
        None => {
            return Err(ScraperError::MissingPublishDate);
        },
    };
    Ok(Episode { slug, number, published_at, title, preview })
}

impl Episode {
    /// Reads an episode from a feed item. The title must be present and read
    /// `CD`, an optional `-`, the number, an optional `:`, a space and the
    /// title proper (in any case); the date must be present and in RFC 2822
    /// form.
    pub fn try_from(item: FeedItem) -> (r: Result<Episode, ScraperError>)
        ensures
            item.title is None ==> r matches Err(ScraperError::MissingTitle),
            item.title matches Some(t) ==> {
                let num = regex_group(title_pattern(), t@, "num_str"@);
                let rest = regex_group(title_pattern(), t@, "title"@);
                let date = match item.pub_date {
                    Some(d) => rfc2822_millis(d@),
                    None => None,
                };
                match (num, rest) {
                    (Some(n), Some(tt)) => match decimal_of(n) {
                        None => r matches Err(ScraperError::TitleStructure(e)) && e@ == t@,
                        Some(_) => match date {
                            None => r matches Err(ScraperError::MissingPublishDate),
                            Some(ms) => r matches Ok(ep) && episode_matches(
                                ep,
                                n,
                                tt,
                                ms,
                                opt_view(item.subtitle),
                            ),
                        },
                    },
                    _ => r matches Err(ScraperError::TitleStructure(e)) && e@ == t@,
                }
            },
    {
        let full_title = match item.title {
            Some(t) => t,
            None => {
                return Err(ScraperError::MissingTitle);
            },
        };
        let pattern = "(?i)^cd-?(?P<num_str>\\d+):? (?P<title>.*)$";
        let num = capture_group(pattern, full_title.as_str(), "num_str");
        let rest = capture_group(pattern, full_title.as_str(), "title");
        let captured = match (num, rest) {
            (Some(n), Some(t)) => Some((n, t)),
            _ => None,
        };
        let published_at = match item.pub_date {
            Some(d) => parse_rfc2822_millis(d.as_str()),
            None => None,
        };
        episode_from_parts(full_title, captured, published_at, item.subtitle)
    }
}

} // verus!
