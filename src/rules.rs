//! User rules: a regular expression tested against one field of a capture,
//! with an action when it matches.
use vstd::prelude::*;
use crate::classify::{owned, same_text, views};

verus! {

#[verifier::external_type_specification]
#[verifier::external_body]
pub struct ExRegex(regex::Regex);

#[verifier::external_type_specification]
#[verifier::external_body]
pub struct ExRegexError(regex::Error);

/// Whether `regex::Regex::new` accepts the pattern.
pub uninterp spec fn pattern_compiles(p: Seq<char>) -> bool;

/// Whether the regular expression compiled from `p` matches somewhere in `t`.
pub uninterp spec fn pattern_matches(p: Seq<char>, t: Seq<char>) -> bool;

/// A rule as the user states it.
#[derive(Clone, Debug)]
pub struct Rule {
    /// A regular expression.
    pub pattern: String,
    /// `text`, `url`, `app` or `type`; anything else means `text`.
    pub field: String,
    /// `tag`, `ignore` or `merge`; anything else does nothing.
    pub action: String,
    /// The tag that a `tag` rule adds.
    pub tag: Option<String>,
}

/// A compiled rule pattern, kept with the text it was compiled from. Only
/// `compile_pattern` builds one, so `re` is always the compilation of
/// `source`.
pub struct Pattern {
    re: regex::Regex,
    source: String,
}

/// Relies on `regex::Regex::new`: compiles `p`, or reports why it cannot.
#[verifier::external_body]
fn compile_pattern(p: &str) -> (r: Result<Pattern, regex::Error>)
    ensures
        r is Ok <==> pattern_compiles(p@),
        r matches Ok(x) ==> x.source@ == p@,
{
    match regex::Regex::new(p) {
        Ok(re) => Ok(Pattern { re, source: p.to_string() }),
        Err(e) => Err(e),
    }
}

/// Relies on `regex::Regex::is_match`: whether the pattern matches somewhere
/// in `t`.
#[verifier::external_body]
fn pattern_is_match(x: &Pattern, t: &str) -> (r: bool)
    ensures
        r == pattern_matches(x.source@, t@),
{
    x.re.is_match(t)
}

pub open spec fn opt_view(o: Option<&str>) -> Option<Seq<char>> {
    match o {
        Option::Some(s) => Option::Some(s@),
        Option::None => Option::None,
    }
}

pub open spec fn or_empty(o: Option<Seq<char>>) -> Seq<char> {
    match o {
        Option::Some(s) => s,
        Option::None => Seq::empty(),
    }
}

/// The value a rule is tested against.
pub open spec fn rule_target(r: Rule, text: Seq<char>, url: Option<Seq<char>>, app: Option<Seq<char>>, capture_type: Seq<char>) -> Seq<char> {
    if r.field@ == seq!['u', 'r', 'l'] {
        or_empty(url)
    } else if r.field@ == seq!['a', 'p', 'p'] {
        or_empty(app)
    } else if r.field@ == seq!['t', 'y', 'p', 'e'] {
        capture_type
    } else {
        text
    }
}

/// A rule fires when its pattern compiles and matches its target.
pub open spec fn rule_fires(r: Rule, text: Seq<char>, url: Option<Seq<char>>, app: Option<Seq<char>>, capture_type: Seq<char>) -> bool {
    pattern_compiles(r.pattern@) && pattern_matches(r.pattern@, rule_target(r, text, url, app, capture_type))
}

/// Which of `rules` fire on a capture.
pub open spec fn fired_rules(rules: Seq<Rule>, text: Seq<char>, url: Option<Seq<char>>, app: Option<Seq<char>>, capture_type: Seq<char>) -> Seq<bool> {
    Seq::new(rules.len(), |i: int| rule_fires(rules[i], text, url, app, capture_type))
}

pub open spec fn tag_action() -> Seq<char> {
    seq!['t', 'a', 'g']
}

pub open spec fn ignore_action() -> Seq<char> {
    seq!['i', 'g', 'n', 'o', 'r', 'e']
}

pub open spec fn merge_action() -> Seq<char> {
    seq!['m', 'e', 'r', 'g', 'e']
}

/// The tags that the fired `tag` rules add, in rule order.
pub open spec fn rule_tags(rules: Seq<Rule>, fired: Seq<bool>) -> Seq<Seq<char>>
    decreases rules.len(),
{
    if rules.len() == 0 {
        Seq::empty()
    } else {
        let r = rules.last();
        let prev = rule_tags(rules.drop_last(), fired.drop_last());
        if fired.last() && r.action@ == tag_action() && r.tag is Some {
            prev.push(r.tag->0@)
        } else {
            prev
        }
    }
}

/// Some fired rule has action `action`.
pub open spec fn action_fired(rules: Seq<Rule>, fired: Seq<bool>, action: Seq<char>) -> bool {
    exists|i: int| 0 <= i < rules.len() && #[trigger] fired[i] && rules[i].action@ == action
}

/// What a rule set decides for a capture, given which rules fired: the tags
/// added, whether to ignore the capture, and whether to merge it.
pub fn combine_rule_matches(rules: &Vec<Rule>, fired: &Vec<bool>) -> (r: (Vec<String>, bool, bool))
    requires
        fired.len() == rules.len(),
    ensures
        views(r.0@) == rule_tags(rules@, fired@),
        r.1 == action_fired(rules@, fired@, ignore_action()),
        r.2 == action_fired(rules@, fired@, merge_action()),
{
    let mut tags: Vec<String> = Vec::new();
    let mut ignore = false;
    let mut merge = false;
    let mut i: usize = 0;
    while i < rules.len()
        invariant
            i <= rules.len() == fired.len(),
            views(tags@) == rule_tags(rules@.subrange(0, i as int), fired@.subrange(0, i as int)),
            ignore == action_fired(rules@.subrange(0, i as int), fired@.subrange(0, i as int), ignore_action()),
            merge == action_fired(rules@.subrange(0, i as int), fired@.subrange(0, i as int), merge_action()),
        decreases rules.len() - i,
    {
        let ghost rs = rules@.subrange(0, i as int + 1);
        let ghost fs = fired@.subrange(0, i as int + 1);
        assert(rs.drop_last() =~= rules@.subrange(0, i as int));
        assert(fs.drop_last() =~= fired@.subrange(0, i as int));
        proof {
            reveal_strlit("tag");
            reveal_strlit("ignore");
            reveal_strlit("merge");
        }
        assert("tag"@ =~= tag_action());
        assert("ignore"@ =~= ignore_action());
        assert("merge"@ =~= merge_action());
        let r = &rules[i];
        let is_tag = same_text(r.action.as_str(), "tag");
        let is_ignore = same_text(r.action.as_str(), "ignore");
        let is_merge = same_text(r.action.as_str(), "merge");
        assert(rs.last() == rules@[i as int]);
        assert(fs.last() == fired@[i as int]);
        let ghost before = tags@;
        if fired[i] && is_tag {
            match &r.tag {
                Option::Some(t) => {
                    tags.push(t.clone());
                    assert(views(tags@) =~= views(before).push(t@));
                },
                Option::None => {},
            }
        }
        if fired[i] && is_ignore {
            ignore = true;
        }
        if fired[i] && is_merge {
            merge = true;
        }
        proof {
            let ps = rules@.subrange(0, i as int);
            let pf = fired@.subrange(0, i as int);
            assert forall|a: Seq<char>| action_fired(rs, fs, a) == (action_fired(ps, pf, a) || (fired@[i as int] && rules@[i as int].action@ == a)) by {
                if action_fired(rs, fs, a) {
                    let j = choose|j: int| 0 <= j < rs.len() && #[trigger] fs[j] && rs[j].action@ == a;
                    if j < i {
                        assert(pf[j] && ps[j].action@ == a);
                    }
                }
                if action_fired(ps, pf, a) {
                    let j = choose|j: int| 0 <= j < ps.len() && #[trigger] pf[j] && ps[j].action@ == a;
                    assert(fs[j] && rs[j].action@ == a);
                }
                if fired@[i as int] && rules@[i as int].action@ == a {
                    assert(fs[i as int] && rs[i as int].action@ == a);
                }
            }
        }
        i = i + 1;
    }
    assert(rules@.subrange(0, i as int) =~= rules@);
    assert(fired@.subrange(0, i as int) =~= fired@);
    (tags, ignore, merge)
}

/// The value rule `r` is tested against.
fn target_of<'a>(r: &Rule, text: &'a str, source_url: Option<&'a str>, source_app: Option<&'a str>, capture_type: &'a str) -> (t: &'a str)
    ensures
        t@ == rule_target(*r, text@, opt_view(source_url), opt_view(source_app), capture_type@),
{
    proof {
        reveal_strlit("url");
        reveal_strlit("app");
        reveal_strlit("type");
        reveal_strlit("");
    }
    assert("url"@ =~= seq!['u', 'r', 'l']);
    assert("app"@ =~= seq!['a', 'p', 'p']);
    assert("type"@ =~= seq!['t', 'y', 'p', 'e']);
    assert(""@ =~= Seq::<char>::empty());
    if same_text(r.field.as_str(), "url") {
        match source_url {
            Option::Some(u) => u,
            Option::None => "",
        }
    } else if same_text(r.field.as_str(), "app") {
        match source_app {
            Option::Some(a) => a,
            Option::None => "",
        }
    } else if same_text(r.field.as_str(), "type") {
        capture_type
    } else {
        text
    }
}

/// Evaluates `rules` in order against a capture. A rule whose pattern does
/// not compile is skipped. Returns the tags that fired `tag` rules add, and
/// whether some fired rule asks to ignore, and to merge, the capture.
pub fn apply_rules(text: &str, source_url: Option<&str>, source_app: Option<&str>, capture_type: &str, rules: &Vec<Rule>) -> (r: (Vec<String>, bool, bool))
    ensures
        ({
            let fired = fired_rules(rules@, text@, opt_view(source_url), opt_view(source_app), capture_type@);
            &&& views(r.0@) == rule_tags(rules@, fired)
            &&& r.1 == action_fired(rules@, fired, ignore_action())
            &&& r.2 == action_fired(rules@, fired, merge_action())
        }),
{
    let ghost want = fired_rules(rules@, text@, opt_view(source_url), opt_view(source_app), capture_type@);
    let mut fired: Vec<bool> = Vec::new();
    let mut i: usize = 0;
    while i < rules.len()
        invariant
            i <= rules.len(),
            want == fired_rules(rules@, text@, opt_view(source_url), opt_view(source_app), capture_type@),
            fired@.len() == i,
            forall|j: int| 0 <= j < i ==> fired@[j] == want[j],
        decreases rules.len() - i,
    {
        let r = &rules[i];
        let target = target_of(r, text, source_url, source_app, capture_type);
        let compiled = compile_pattern(r.pattern.as_str());
        let hit = match &compiled {
            Ok(p) => {
                assert(p.source@ == r.pattern@);
                pattern_is_match(p, target)
            },
            Err(_) => false,
        };
        assert(*r == rules@[i as int]);
        assert(target@ == rule_target(rules@[i as int], text@, opt_view(source_url), opt_view(source_app), capture_type@));
        assert(hit == want[i as int]);
        fired.push(hit);
        i = i + 1;
    }
    assert(fired@ =~= want);
    combine_rule_matches(rules, &fired)
}

} // verus!
