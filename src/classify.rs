//! Capture classification and the tags derived from a link's domain.
use vstd::prelude::*;
use vstd::string::*;
use crate::text::{has_substring, str_contains};

verus! {

/// Whether `url::Url::parse` accepts the text as an absolute URL.
pub uninterp spec fn parses_as_url(s: Seq<char>) -> bool;

/// The domain `url::Url::parse` finds in the text, if it parses and its host
/// is a domain.
pub uninterp spec fn domain_of(s: Seq<char>) -> Option<Seq<char>>;

pub open spec fn text_type() -> Seq<char> {
    seq!['t', 'e', 'x', 't']
}

pub open spec fn link_type() -> Seq<char> {
    seq!['l', 'i', 'n', 'k']
}

pub open spec fn code_type() -> Seq<char> {
    seq!['c', 'o', 'd', 'e']
}

/// Several lines holding a statement terminator, a brace or a keyword.
pub open spec fn looks_like_code(s: Seq<char>) -> bool {
    &&& has_substring(s, seq!['\n'])
    &&& {
        ||| has_substring(s, seq![';'])
        ||| has_substring(s, seq!['{'])
        ||| has_substring(s, seq!['}'])
        ||| has_substring(s, seq!['f', 'n', ' '])
        ||| has_substring(s, seq!['c', 'l', 'a', 's', 's', ' '])
    }
}

/// The capture type of `s`, given whether it parses as a URL.
pub open spec fn capture_type_for(s: Seq<char>, is_link: bool) -> Seq<char> {
    if is_link {
        link_type()
    } else if looks_like_code(s) {
        code_type()
    } else {
        text_type()
    }
}

/// The capture type of `s`.
pub open spec fn capture_type_of(s: Seq<char>) -> Seq<char> {
    capture_type_for(s, parses_as_url(s))
}

/// The part of a domain before its first dot.
pub open spec fn first_label(d: Seq<char>) -> Seq<char>
    decreases d.len(),
{
    if d.len() == 0 || d[0] == '.' {
        Seq::empty()
    } else {
        seq![d[0]] + first_label(d.drop_first())
    }
}

/// The tag for a domain: fixed ones for well-known hosts, else its first label.
pub open spec fn tag_for_domain(d: Seq<char>) -> Seq<char> {
    if d == seq!['g', 'i', 't', 'h', 'u', 'b', '.', 'c', 'o', 'm'] {
        seq!['g', 'i', 't', 'h', 'u', 'b']
    } else if d == seq!['d', 'o', 'c', 's', '.', 'r', 's'] {
        seq!['r', 'u', 's', 't', '-', 'd', 'o', 'c', 's']
    } else {
        first_label(d)
    }
}

/// The automatic tags for a value whose domain is `d`.
pub open spec fn auto_tags(d: Option<Seq<char>>) -> Seq<Seq<char>> {
    match d {
        Option::Some(x) => seq![tag_for_domain(x)],
        Option::None => Seq::empty(),
    }
}

/// The views of the strings in `v`.
pub open spec fn views(v: Seq<String>) -> Seq<Seq<char>> {
    v.map_values(|t: String| t@)
}

/// Relies on `url::Url::parse`: whether it accepts the text.
#[verifier::external_body]
pub(crate) fn is_url(text: &str) -> (r: bool)
    ensures
        r == parses_as_url(text@),
{
    url::Url::parse(text).is_ok()
}

/// Relies on `url::Url::parse` and `url::Url::domain`: the domain of the
/// parsed URL, if any.
#[verifier::external_body]
pub(crate) fn extract_domain(url: &str) -> (r: Option<String>)
    ensures
        r matches Some(d) ==> domain_of(url@) == Some(d@),
        r is None ==> domain_of(url@) is None,
{
    url::Url::parse(url).ok().and_then(|u| u.domain().map(|d| d.to_string()))
}

/// A string holding `s`.
pub(crate) fn owned(s: &str) -> (r: String)
    ensures
        r@ == s@,
{
    String::from_str(s)
}

/// Whether `a` and `b` hold the same characters.
pub fn same_text(a: &str, b: &str) -> (r: bool)
    ensures
        r == (a@ == b@),
{
    let n = a.unicode_len();
    if n != b.unicode_len() {
        return false;
    }
    let mut i: usize = 0;
    while i < n
        invariant
            n == a@.len() == b@.len(),
            i <= n,
            forall|j: int| 0 <= j < i ==> a@[j] == b@[j],
        decreases n - i,
    {
        if a.get_char(i) != b.get_char(i) {
            return false;
        }
        i = i + 1;
    }
    assert(a@ =~= b@);
    true
}

/// The type a capture gets when it has none: plain text.
pub fn default_capture_type() -> (r: String)
    ensures
        r@ == text_type(),
{
    proof {
        reveal_strlit("text");
    }
    owned("text")
}

/// The capture type of `text`, given whether it parses as a URL.
pub fn classify_with(text: &str, is_link: bool) -> (r: String)
    ensures
        r@ == capture_type_for(text@, is_link),
{
    proof {
        reveal_strlit("link");
        reveal_strlit("code");
        reveal_strlit("\n");
        reveal_strlit(";");
        reveal_strlit("{");
        reveal_strlit("}");
        reveal_strlit("fn ");
        reveal_strlit("class ");
    }
    if is_link {
        return owned("link");
    }
    let code = str_contains(text, "\n") && (str_contains(text, ";") || str_contains(text, "{")
        || str_contains(text, "}") || str_contains(text, "fn ") || str_contains(text, "class "));
    assert("\n"@ =~= seq!['\n']);
    assert(";"@ =~= seq![';']);
    assert("{"@ =~= seq!['{']);
    assert("}"@ =~= seq!['}']);
    assert("fn "@ =~= seq!['f', 'n', ' ']);
    assert("class "@ =~= seq!['c', 'l', 'a', 's', 's', ' ']);
    assert("code"@ =~= code_type());
    assert("link"@ =~= link_type());
    if code {
        owned("code")
    } else {
        default_capture_type()
    }
}

/// `link` when the text parses as a URL; else `code` when it spans lines and
/// holds a terminator, a brace or a keyword; else `text`.
pub fn detect_capture_type(text: &str) -> (r: String)
    ensures
        r@ == capture_type_of(text@),
{
    let link = is_url(text);
    classify_with(text, link)
}

/// The part of `domain` before its first dot.
pub fn domain_label(domain: &str) -> (r: String)
    ensures
        r@ == first_label(domain@),
{
    let n = domain.unicode_len();
    let mut i: usize = 0;
    assert(domain@.subrange(0, 0) + domain@.subrange(0, n as int) =~= domain@);
    while i < n && domain.get_char(i) != '.'
        invariant
            n == domain@.len(),
            i <= n,
            forall|j: int| 0 <= j < i ==> domain@[j] != '.',
            first_label(domain@) == domain@.subrange(0, i as int) + first_label(domain@.subrange(i as int, n as int)),
        decreases n - i,
    {
        proof {
            let rest = domain@.subrange(i as int, n as int);
            assert(rest.drop_first() =~= domain@.subrange(i as int + 1, n as int));
            assert(domain@.subrange(0, i as int) + seq![domain@[i as int]] =~= domain@.subrange(0, i as int + 1));
        }
        i = i + 1;
    }
    proof {
        if i < n {
            assert(domain@.subrange(i as int, n as int)[0] == '.');
        }
        assert(first_label(domain@.subrange(i as int, n as int)) =~= Seq::<char>::empty());
        assert(first_label(domain@) =~= domain@.subrange(0, i as int));
    }
    owned(domain.substring_char(0, i))
}

/// The tag for a domain: `github` and `rust-docs` for two well-known hosts,
/// else the domain's first label.
pub fn domain_tag(domain: &str) -> (r: String)
    ensures
        r@ == tag_for_domain(domain@),
{
    proof {
        reveal_strlit("github.com");
        reveal_strlit("github");
        reveal_strlit("docs.rs");
        reveal_strlit("rust-docs");
    }
    assert("github.com"@ =~= seq!['g', 'i', 't', 'h', 'u', 'b', '.', 'c', 'o', 'm']);
    assert("github"@ =~= seq!['g', 'i', 't', 'h', 'u', 'b']);
    assert("docs.rs"@ =~= seq!['d', 'o', 'c', 's', '.', 'r', 's']);
    assert("rust-docs"@ =~= seq!['r', 'u', 's', 't', '-', 'd', 'o', 'c', 's']);
    if same_text(domain, "github.com") {
        owned("github")
    } else if same_text(domain, "docs.rs") {
        owned("rust-docs")
    } else {
        domain_label(domain)
    }
}

/// The automatic tags for a value whose domain is `domain`.
pub fn tags_for_domain(domain: &Option<String>) -> (r: Vec<String>)
    ensures
        views(r@) == auto_tags(match domain {
            Option::Some(d) => Option::Some(d@),
            Option::None => Option::None,
        }),
{
    let mut tags: Vec<String> = Vec::new();
    match domain {
        Option::Some(d) => {
            let t = domain_tag(d.as_str());
            tags.push(t);
            assert(views(tags@) =~= seq![tag_for_domain(d@)]);
        },
        Option::None => {
            assert(views(tags@) =~= Seq::<Seq<char>>::empty());
        },
    }
    tags
}

/// The automatic tags for a captured value: one, derived from its domain,
/// when it parses as a URL with a domain.
pub fn auto_tags_for_text_and_url(text: &str) -> (r: Vec<String>)
    ensures
        views(r@) == auto_tags(domain_of(text@)),
{
    let domain = extract_domain(text);
    tags_for_domain(&domain)
}

} // verus!
