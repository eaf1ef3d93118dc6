use vstd::prelude::*;

use crate::feed::{capture_group, decimal_of, opt_view, parse_usize, regex_group};
use crate::network::contains_node;

verus! {

/// For each element that `selector` picks out of an HTML document, in
/// document order, the values of two of its attributes; `None` where the
/// selector does not parse.
pub uninterp spec fn selected_attrs(
    html: Seq<char>,
    selector: Seq<char>,
    first: Seq<char>,
    second: Seq<char>,
) -> Option<Seq<(Option<Seq<char>>, Option<Seq<char>>)>>;

pub open spec fn pairs_view(v: Seq<(Option<String>, Option<String>)>) -> Seq<(Option<Seq<char>>, Option<Seq<char>>)> {
    v.map_values(|p: (Option<String>, Option<String>)| (opt_view(p.0), opt_view(p.1)))
}

/// Relies on scraper's `Html::parse_document`, `Selector::parse` and
/// `Html::select`, then `Element::attr` for the two attribute names: one pair
/// per selected element, in document order, depending on the four strings
/// alone.
#[verifier::external_body]
fn select_attrs(html: &str, selector: &str, first: &str, second: &str) -> (r: Option<
    Vec<(Option<String>, Option<String>)>,
>)
    ensures
        match r {
            Some(v) => selected_attrs(html@, selector@, first@, second@) == Some(pairs_view(v@)),
            None => selected_attrs(html@, selector@, first@, second@) is None,
        },
{
    let doc = scraper::Html::parse_document(html);
    let sel = scraper::Selector::parse(selector).ok()?;
    let pick = |a: scraper::ElementRef, name: &str| a.value().attr(name).map(|s| s.to_string());
    Some(doc.select(&sel).map(|a| (pick(a, first), pick(a, second))).collect())
}

/// The pattern of a link to an episode page on the show's site.
pub open spec fn link_pattern() -> Seq<char> {
    "(?i)congressionaldish.com/cd-?(?P<num>\\d+)[^a-z0-9]"@
}

/// The episode number that a link target names, if it names one.
pub open spec fn link_number(href: Seq<char>) -> Option<usize> {
    match regex_group(link_pattern(), href, "num"@) {
        Some(d) => decimal_of(d),
        None => None,
    }
}

/// Anchor `a` (its `rel` and `href`) is a link to episode `n` that is not
/// marked as the previous episode.
pub open spec fn points_to(a: (Option<Seq<char>>, Option<Seq<char>>), n: usize) -> bool {
    &&& a.0 != Some("prev"@)
    &&& a.1 matches Some(h) && link_number(h) == Some(n)
}

/// The episodes that some anchor points to.
pub open spec fn pointed(anchors: Seq<(Option<Seq<char>>, Option<Seq<char>>)>) -> Set<usize> {
    Set::new(|n: usize| exists|i: int| 0 <= i < anchors.len() && #[trigger] points_to(anchors[i], n))
}

/// The number in a link target, read with the link pattern.
fn number_in_link(href: &str) -> (r: Option<usize>)
    ensures
        r == link_number(href@),
{
    let d = capture_group_num(href);
    match d {
        Some(d) => parse_usize(d.as_str()),
        None => None,
    }
}

fn capture_group_num(href: &str) -> (r: Option<String>)
    ensures
        opt_view(r) == regex_group(link_pattern(), href@, "num"@),
{
    capture_group(
        "(?i)congressionaldish.com/cd-?(?P<num>\\d+)[^a-z0-9]",
        href,
        "num",
    )
}

/// The episodes that a list of anchors (each its `rel` and `href`) links to,
/// each once: links marked `rel="prev"` do not count.
pub fn pointers(anchors: &Vec<(Option<String>, Option<String>)>) -> (r: Vec<usize>)
    ensures
        r@.no_duplicates(),
        r@.to_set() == pointed(pairs_view(anchors@)),
{
    let ghost av = pairs_view(anchors@);
    let prev = String::from_str("prev");
    proof {
        reveal_strlit("prev");
    }
    let mut out: Vec<usize> = Vec::new();
    let mut i: usize = 0;
    while i < anchors.len()
        invariant
            i <= anchors@.len(),
            av == pairs_view(anchors@),
            prev@ == "prev"@,
            out@.no_duplicates(),
            forall|n: usize|
                #[trigger] out@.contains(n) <==> exists|j: int| 0 <= j < i && #[trigger] points_to(av[j], n),
        decreases anchors@.len() - i,
    {
        let (rel, href) = &anchors[i];
        let is_prev = match rel {
            Some(r) => *r == prev,
            None => false,
        };
        let found = if is_prev {
            None
        } else {
            match href {
                Some(h) => number_in_link(h.as_str()),
                None => None,
            }
        };
        let ghost before = out@;
        proof {
            assert(av[i as int] == (opt_view(*rel), opt_view(*href)));
        }
        match found {
            Some(n) => {
                if !contains_node(&out, n) {
                    out.push(n);
                }
            },
            None => {},
        }
        proof {
            assert forall|m: usize|
                #[trigger] out@.contains(m) <==> exists|j: int| 0 <= j < i + 1 && #[trigger] points_to(av[j], m) by {
                if out@.contains(m) && !before.contains(m) {
                    assert(found == Some(m));
                    assert(points_to(av[i as int], m));
                }
                if before.contains(m) {
                    assert(out@[before.index_of(m)] == m);
                }
                if points_to(av[i as int], m) {
                    assert(found == Some(m));
                    if !before.contains(m) {
                        assert(out@[out@.len() - 1] == m);
                    }
                }
                if exists|j: int| 0 <= j < i + 1 && #[trigger] points_to(av[j], m) {
                    let j = choose|j: int| 0 <= j < i + 1 && #[trigger] points_to(av[j], m);
                    if j < i {
                        assert(before.contains(m));
                    }
                }
            }
        }
        i = i + 1;
    }
    proof {
        assert(out@.to_set() =~= pointed(av));
    }
    out
}

/// The episodes that the links of an HTML page point to, each once, leaving
/// out links marked `rel="prev"`.
pub fn scrape_links(html: &str) -> (r: Vec<usize>)
    ensures
        r@.no_duplicates(),
        match selected_attrs(html@, "a"@, "rel"@, "href"@) {
            Some(anchors) => r@.to_set() == pointed(anchors),
            None => r@.len() == 0,
        },
{
    match select_attrs(html, "a", "rel", "href") {
        Some(anchors) => pointers(&anchors),
        None => Vec::new(),
    }
}

/// The links that point back to earlier episodes than `number`, in their
/// order.
pub fn backward_links(number: usize, links: &Vec<usize>) -> (r: Vec<usize>)
    ensures
        r@ == links@.filter(|t: usize| t < number),
{
    let mut out: Vec<usize> = Vec::new();
    let mut i: usize = 0;
    while i < links.len()
        invariant
            i <= links@.len(),
            out@ == links@.subrange(0, i as int).filter(|t: usize| t < number),
        decreases links@.len() - i,
    {
        let t = links[i];
        proof {
            reveal(Seq::filter);
            assert(links@.subrange(0, i + 1).drop_last() == links@.subrange(0, i as int));
        }
        if t < number {
            out.push(t);
        }
        i = i + 1;
    }
    assert(links@.subrange(0, links@.len() as int) == links@);
    out
}

} // verus!
