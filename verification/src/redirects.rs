//! Path redirect rules.
//!
//! Every redirect is a `301 Moved Permanently`, so a rule is just a pattern
//! and a target. Matching is not a regex: an exact-path lookup, then the
//! prefix rules from the longest down, then the whole-host catch-all.
use vstd::hash_map::StringHashMap;
use vstd::prelude::*;
use vstd::slice::slice_subrange;
use vstd::string::StringExecFns;
use vstd::utf8::encode_utf8;

use crate::text::{
    before_last, between, byte_len, chars_of, control_free, has_char, is_control, is_control_free,
    is_digit, is_word, lemma_encode_concat, lemma_encode_len, same_str, starts_with, string_of, strip,
    strip_last,
};

verus! {

/// What a rule set holds.
#[verifier::ext_equal]
pub struct RuleSet {
    /// Whole-path rules.
    pub exact: Map<Seq<char>, Seq<char>>,
    /// `/prefix/*` rules by their literal prefix, in matching order.
    pub prefix: Seq<(Seq<char>, Seq<char>)>,
    /// The catch-all target.
    pub all: Option<Seq<char>>,
}

/// One site's path redirect rules, indexed for matching at request time.
pub struct Redirects {
    exact: StringHashMap<String>,
    prefix: Vec<(String, String)>,
    all: Option<String>,
}

/// The prefix rules of a list as pairs of texts.
pub open spec fn rule_texts(v: Seq<(String, String)>) -> Seq<(Seq<char>, Seq<char>)> {
    Seq::new(v.len(), |i: int| (v[i].0@, v[i].1@))
}

impl View for Redirects {
    type V = RuleSet;

    closed spec fn view(&self) -> RuleSet {
        RuleSet {
            exact: self.exact@.map_values(|t: String| t@),
            prefix: rule_texts(self.prefix@),
            all: match self.all {
                Some(t) => Some(t@),
                None => None,
            },
        }
    }
}

/// The rule set with no rules.
pub open spec fn no_rules() -> RuleSet {
    RuleSet { exact: Map::empty(), prefix: seq![], all: None }
}

impl Default for Redirects {
    fn default() -> (r: Self)
        ensures
            r@ == no_rules(),
    {
        let r = Redirects { exact: StringHashMap::new(), prefix: Vec::new(), all: None };
        assert(r@ =~= no_rules());
        r
    }
}

// ------------------------------------------------------------------ expansion

/// A target template with its captures filled in: `$0` is the whole path, `$1`
/// the captured remainder, `$$` a literal `$`. A `$` before anything else
/// stands for itself.
pub open spec fn expanded(template: Seq<char>, path: Seq<char>, cap: Seq<char>) -> Seq<char>
    decreases template.len(),
{
    if template.len() == 0 {
        seq![]
    } else if template[0] == '$' && template.len() > 1 && template[1] == '0' {
        path + expanded(template.skip(2), path, cap)
    } else if template[0] == '$' && template.len() > 1 && template[1] == '1' {
        cap + expanded(template.skip(2), path, cap)
    } else if template[0] == '$' && template.len() > 1 && template[1] == '$' {
        seq!['$'] + expanded(template.skip(2), path, cap)
    } else {
        seq![template[0]] + expanded(template.skip(1), path, cap)
    }
}

/// Expands a target template against one match.
pub fn expand(template: &str, path: &str, cap: &str) -> (r: String)
    ensures
        r@ == expanded(template@, path@, cap@),
{
    let t = chars_of(template);
    let mut out = String::new();
    let mut i: usize = 0;
    assert(t@.skip(0) == t@);
    while i < t.len()
        invariant
            0 <= i <= t.len(),
            t@ == template@,
            out@ + expanded(t@.skip(i as int), path@, cap@) == expanded(template@, path@, cap@),
        decreases t.len() - i,
    {
        let ghost rest = t@.skip(i as int);
        let ghost before = out@;
        assert(rest.skip(1) == t@.skip(i + 1));
        if t[i] == '$' && i + 1 < t.len() && (t[i + 1] == '0' || t[i + 1] == '1' || t[i + 1] == '$') {
            assert(rest.skip(2) == t@.skip(i + 2));
            if t[i + 1] == '0' {
                out.append(path);
            } else if t[i + 1] == '1' {
                out.append(cap);
            } else {
                out.push('$');
            }
            assert(out@ + expanded(rest.skip(2), path@, cap@) =~= before + expanded(
                rest,
                path@,
                cap@,
            ));
            i = i + 2;
        } else {
            out.push(t[i]);
            assert(out@ + expanded(rest.skip(1), path@, cap@) =~= before + expanded(
                rest,
                path@,
                cap@,
            ));
            i = i + 1;
        }
    }
    assert(expanded(t@.skip(i as int), path@, cap@) =~= seq![]);
    out
}

/// A target that names an origin of its own.
pub open spec fn is_absolute(target: Seq<char>) -> bool {
    "http://"@.is_prefix_of(target) || "https://"@.is_prefix_of(target)
}

/// Decides [`is_absolute`].
pub fn absolute(target: &[char]) -> (r: bool)
    ensures
        r == is_absolute(target@),
{
    starts_with(target, "http://") || starts_with(target, "https://")
}

/// The part of a URL before its query and its fragment.
pub open spec fn path_part(s: Seq<char>) -> Seq<char>
    decreases s.len(),
{
    if s.len() == 0 || s[0] == '?' || s[0] == '#' {
        seq![]
    } else {
        seq![s[0]] + path_part(s.skip(1))
    }
}

/// A rule whose target, expanded against a representative match, leads straight
/// back to the path it came from, query and fragment aside. An absolute target
/// names another origin and is left alone.
pub open spec fn is_loop(target: Seq<char>, probe: Seq<char>, capture: Seq<char>) -> bool {
    !is_absolute(target) && path_part(expanded(target, probe, capture)) == probe
}

/// Decides [`is_loop`].
pub fn loops_forever(target: &str, probe_path: &str, capture: &str) -> (r: bool)
    ensures
        r == is_loop(target@, probe_path@, capture@),
{
    if absolute(chars_of(target).as_slice()) {
        return false;
    }
    let expanded = chars_of(expand(target, probe_path, capture).as_str());
    let mut n: usize = 0;
    assert(expanded@.skip(0) == expanded@);
    while n < expanded.len() && expanded[n] != '?' && expanded[n] != '#'
        invariant
            0 <= n <= expanded.len(),
            expanded@.take(n as int) + path_part(expanded@.skip(n as int)) == path_part(expanded@),
        decreases expanded.len() - n,
    {
        assert(expanded@.skip(n as int).skip(1) == expanded@.skip(n + 1));
        assert(expanded@.take(n + 1) + path_part(expanded@.skip(n + 1)) =~= expanded@.take(n as int)
            + path_part(expanded@.skip(n as int)));
        n = n + 1;
    }
    assert(expanded@.take(n as int) =~= path_part(expanded@));
    is_word(slice_subrange(expanded.as_slice(), 0, n), probe_path)
}

// --------------------------------------------------------------- adding rules

/// The digit of the first capture in a template that has no value: anything but
/// `$0`, `$1` and the escape `$$`.
pub open spec fn unknown_capture(template: Seq<char>) -> Option<char>
    decreases template.len(),
{
    if template.len() < 2 {
        None
    } else if template[0] != '$' {
        unknown_capture(template.skip(1))
    } else if template[1] == '$' || template[1] == '0' || template[1] == '1' {
        unknown_capture(template.skip(2))
    } else if is_digit(template[1]) {
        Some(template[1])
    } else {
        unknown_capture(template.skip(1))
    }
}

fn find_unknown_capture(t: &[char]) -> (r: Option<char>)
    ensures
        r == unknown_capture(t@),
{
    let mut i: usize = 0;
    assert(t@.skip(0) == t@);
    while t.len() - i >= 2
        invariant
            0 <= i <= t.len(),
            unknown_capture(t@.skip(i as int)) == unknown_capture(t@),
        decreases t.len() - i,
    {
        assert(t@.skip(i as int).skip(1) == t@.skip(i + 1));
        assert(t@.skip(i as int).skip(2) == t@.skip(i + 2));
        if t[i] != '$' {
            i = i + 1;
        } else if t[i + 1] == '$' || t[i + 1] == '0' || t[i + 1] == '1' {
            i = i + 2;
        } else {
            let u: u32 = t[i + 1] as u32;
            if 0x30 <= u && u <= 0x39 {
                return Some(t[i + 1]);
            }
            i = i + 1;
        }
    }
    None
}

/// Whether a template names the capture: a `$1` whose `$` is not the second half
/// of the escape `$$`.
pub open spec fn names_capture(template: Seq<char>) -> bool
    decreases template.len(),
{
    if template.len() < 2 {
        false
    } else if template[0] != '$' {
        names_capture(template.skip(1))
    } else if template[1] == '1' {
        true
    } else if template[1] == '$' || template[1] == '0' {
        names_capture(template.skip(2))
    } else {
        names_capture(template.skip(1))
    }
}

fn has_capture(t: &[char]) -> (r: bool)
    ensures
        r == names_capture(t@),
{
    let mut i: usize = 0;
    assert(t@.skip(0) == t@);
    while t.len() - i >= 2
        invariant
            0 <= i <= t.len(),
            names_capture(t@.skip(i as int)) == names_capture(t@),
        decreases t.len() - i,
    {
        assert(t@.skip(i as int).skip(1) == t@.skip(i + 1));
        assert(t@.skip(i as int).skip(2) == t@.skip(i + 2));
        if t[i] != '$' {
            i = i + 1;
        } else if t[i + 1] == '1' {
            return true;
        } else if t[i + 1] == '$' || t[i + 1] == '0' {
            i = i + 2;
        } else {
            i = i + 1;
        }
    }
    false
}

/// Why a target can stand in no rule, whatever its pattern: it could not go
/// into a `Location`, or the client would resolve it somewhere unintended.
pub open spec fn target_refused(target: Seq<char>) -> Option<Seq<char>> {
    if !control_free(target) {
        Some("redirect: control characters are not allowed in a target"@)
    } else if target.len() == 0 {
        Some("redirect: empty target"@)
    } else if !is_absolute(target) && target[0] != '/' && !"$0"@.is_prefix_of(target) {
        Some(
            "redirect: target must be an absolute http(s):// URL, a path starting with '/', or $0 (got: "@
                + target + ")"@,
        )
    } else {
        match unknown_capture(target) {
            Some(d) => Some(
                "redirect: unknown capture $"@ + seq![d]
                    + " in target (only $0, the whole path, and $1, a /prefix/* remainder, exist)"@,
            ),
            None => None,
        }
    }
}

/// Some prefix rule is about `prefix`.
pub open spec fn has_prefix_rule(rules: Seq<(Seq<char>, Seq<char>)>, prefix: Seq<char>) -> bool {
    exists|i: int| 0 <= i < rules.len() && (#[trigger] rules[i]).0 == prefix
}

/// Why a rule is not recorded, if it is not.
pub open spec fn rule_refused(v: RuleSet, pattern: Seq<char>, target: Seq<char>) -> Option<
    Seq<char>,
> {
    match target_refused(target) {
        Some(e) => Some(e),
        None => if pattern == "*"@ {
            if is_loop(target, "/probe"@, "/probe"@) {
                Some("redirect: '* -> $0' redirects every path to itself"@)
            } else if v.all is Some {
                Some("redirect: duplicate '*' rule (a site has at most one catch-all)"@)
            } else {
                None
            }
        } else if pattern.len() == 0 || pattern[0] != '/' {
            Some(
                "redirect: pattern must be a path starting with '/', or '*' for the whole host (got: "@
                    + pattern + ")"@,
            )
        } else {
            match before_last(pattern, '*') {
                Some(prefix) => if prefix.contains('*') || prefix.len() == 0 || prefix.last() != '/' {
                    Some(
                        "redirect: '*' is only allowed as a trailing /prefix/* (got: "@ + pattern
                            + ")"@,
                    )
                } else if is_loop(target, prefix + "probe"@, "probe"@) {
                    Some("redirect: '"@ + pattern + "' redirects every matching path to itself"@)
                } else if has_prefix_rule(v.prefix, prefix) {
                    Some("redirect: duplicate pattern: "@ + pattern + ""@)
                } else {
                    None
                },
                None => if pattern.contains('*') {
                    Some(
                        "redirect: '*' is only allowed as a trailing /prefix/* (got: "@ + pattern
                            + ")"@,
                    )
                } else if is_loop(target, pattern, ""@) {
                    Some("redirect: '"@ + pattern + "' redirects to itself"@)
                } else if names_capture(target) {
                    Some(
                        "redirect: $1 has no value in the exact rule '"@ + pattern
                            + "' (use $0 for the whole path)"@,
                    )
                } else if v.exact.contains_key(pattern) {
                    Some("redirect: duplicate pattern: "@ + pattern + ""@)
                } else {
                    None
                },
            }
        },
    }
}

/// A rule set after a rule was handed to it. A rule that is refused leaves it as
/// it was.
pub open spec fn rule_added(v: RuleSet, pattern: Seq<char>, target: Seq<char>) -> RuleSet {
    if rule_refused(v, pattern, target) is Some {
        v
    } else if pattern == "*"@ {
        RuleSet { all: Some(target), ..v }
    } else {
        match before_last(pattern, '*') {
            Some(prefix) => RuleSet { prefix: v.prefix.push((prefix, target)), ..v },
            None => RuleSet { exact: v.exact.insert(pattern, target), ..v },
        }
    }
}

/// Checks a target on its own.
fn check_target(target: &[char]) -> (r: Result<(), String>)
    ensures
        match r {
            Ok(()) => target_refused(target@) is None,
            Err(e) => target_refused(target@) == Some(e@),
        },
{
    if !is_control_free(target) {
        return Err("redirect: control characters are not allowed in a target".to_string());
    }
    if target.len() == 0 {
        return Err("redirect: empty target".to_string());
    }
    if !absolute(target) && target[0] != '/' && !starts_with(target, "$0") {
        return Err(
            between(
                "redirect: target must be an absolute http(s):// URL, a path starting with '/', or $0 (got: ",
                target,
                ")",
            ),
        );
    }
    match find_unknown_capture(target) {
        Some(d) => {
            let mut digit: Vec<char> = Vec::new();
            digit.push(d);
            assert(digit@ =~= seq![d]);
            Err(
                between(
                    "redirect: unknown capture $",
                    digit.as_slice(),
                    " in target (only $0, the whole path, and $1, a /prefix/* remainder, exist)",
                ),
            )
        },
        None => Ok(()),
    }
}

impl Redirects {
    /// Whether there is no rule at all.
    pub fn is_empty(&self) -> (r: bool)
        ensures
            r == (self@ == no_rules()),
    {
        let r = self.exact.is_empty() && self.prefix.len() == 0 && self.all.is_none();
        proof {
            if r {
                assert(self@ =~= no_rules());
            } else if !self.exact@.is_empty() {
                let k = choose|k: Seq<char>| self.exact@.dom().contains(k);
                assert(self.exact@.dom().contains(k)) by {
                    if forall|k: Seq<char>| !self.exact@.dom().contains(k) {
                        assert(self.exact@.dom() =~= Set::empty());
                    }
                }
                assert(self@.exact.dom().contains(k));
                assert(!no_rules().exact.dom().contains(k));
            } else {
                assert(self.prefix.len() != 0 ==> self@.prefix.len() != no_rules().prefix.len());
            }
        }
        r
    }

    /// Records one `redirect <pattern> -> <target>` rule. Every rejection is of a
    /// rule that would misbehave at run time.
    pub fn push(&mut self, pattern: &str, target: &str) -> (r: Result<(), String>)
        ensures
            match r {
                Ok(()) => rule_refused(old(self)@, pattern@, target@) is None,
                Err(e) => rule_refused(old(self)@, pattern@, target@) == Some(e@),
            },
            final(self)@ == rule_added(old(self)@, pattern@, target@),
    {
        let p = chars_of(pattern);
        let pat = p.as_slice();
        let t = chars_of(target);
        if let Err(e) = check_target(t.as_slice()) {
            return Err(e);
        }
        if is_word(pat, "*") {
            if loops_forever(target, "/probe", "/probe") {
                return Err("redirect: '* -> $0' redirects every path to itself".to_string());
            }
            if self.all.is_some() {
                return Err(
                    "redirect: duplicate '*' rule (a site has at most one catch-all)".to_string(),
                );
            }
            self.all = Some(target.to_string());
            assert(self@ =~= rule_added(old(self)@, pattern@, target@));
            return Ok(());
        }
        if pat.len() == 0 || pat[0] != '/' {
            return Err(
                between(
                    "redirect: pattern must be a path starting with '/', or '*' for the whole host (got: ",
                    pat,
                    ")",
                ),
            );
        }
        if let Some(prefix) = strip_last(pat, '*') {
            if has_char(prefix, '*') || prefix.len() == 0 || prefix[prefix.len() - 1] != '/' {
                return Err(
                    between("redirect: '*' is only allowed as a trailing /prefix/* (got: ", pat, ")"),
                );
            }
            let head = string_of(prefix);
            let mut probe = string_of(prefix);
            probe.append("probe");
            if loops_forever(target, probe.as_str(), "probe") {
                return Err(between("redirect: '", pat, "' redirects every matching path to itself"));
            }
            if self.knows_prefix(head.as_str()) {
                return Err(between("redirect: duplicate pattern: ", pat, ""));
            }
            self.prefix.push((head, target.to_string()));
            assert(self@ =~= rule_added(old(self)@, pattern@, target@));
            return Ok(());
        }
        if has_char(pat, '*') {
            return Err(
                between("redirect: '*' is only allowed as a trailing /prefix/* (got: ", pat, ")"),
            );
        }
        if loops_forever(target, pattern, "") {
            return Err(between("redirect: '", pat, "' redirects to itself"));
        }
        if has_capture(t.as_slice()) {
            return Err(
                between(
                    "redirect: $1 has no value in the exact rule '",
                    pat,
                    "' (use $0 for the whole path)",
                ),
            );
        }
        if self.exact.contains_key(pattern) {
            return Err(between("redirect: duplicate pattern: ", pat, ""));
        }
        self.exact.insert(pattern.to_string(), target.to_string());
        assert(self@ =~= rule_added(old(self)@, pattern@, target@));
        Ok(())
    }

    fn knows_prefix(&self, prefix: &str) -> (r: bool)
        ensures
            r == has_prefix_rule(self@.prefix, prefix@),
    {
        let mut i: usize = 0;
        while i < self.prefix.len()
            invariant
                0 <= i <= self.prefix.len(),
                forall|j: int| 0 <= j < i ==> (#[trigger] self@.prefix[j]).0 != prefix@,
            decreases self.prefix.len() - i,
        {
            if same_str(self.prefix[i].0.as_str(), prefix) {
                assert(self@.prefix[i as int].0 == prefix@);
                return true;
            }
            i = i + 1;
        }
        false
    }
}

// ------------------------------------------------------------- matching order

/// How long a rule's prefix is, in bytes.
pub open spec fn reach(rule: (Seq<char>, Seq<char>)) -> nat {
    encode_utf8(rule.0).len()
}

/// A list of rules with one more, placed behind every rule that reaches as far.
pub open spec fn placed(
    rules: Seq<(Seq<char>, Seq<char>)>,
    rule: (Seq<char>, Seq<char>),
) -> Seq<(Seq<char>, Seq<char>)>
    decreases rules.len(),
{
    if rules.len() == 0 || reach(rules.last()) >= reach(rule) {
        rules.push(rule)
    } else {
        placed(rules.drop_last(), rule).push(rules.last())
    }
}

/// The rules from the longest prefix down; rules of one length keep their order.
pub open spec fn longest_first(rules: Seq<(Seq<char>, Seq<char>)>) -> Seq<(Seq<char>, Seq<char>)>
    decreases rules.len(),
{
    if rules.len() == 0 {
        seq![]
    } else {
        placed(longest_first(rules.drop_last()), rules.last())
    }
}

/// No rule stands behind a shorter one.
pub open spec fn is_longest_first(rules: Seq<(Seq<char>, Seq<char>)>) -> bool {
    forall|i: int, j: int|
        0 <= i < j < rules.len() ==> reach(#[trigger] rules[i]) >= reach(#[trigger] rules[j])
}

proof fn lemma_placed(rules: Seq<(Seq<char>, Seq<char>)>, rule: (Seq<char>, Seq<char>))
    requires
        is_longest_first(rules),
    ensures
        is_longest_first(placed(rules, rule)),
        placed(rules, rule).to_multiset() == rules.push(rule).to_multiset(),
        forall|i: int|
            0 <= i < placed(rules, rule).len() ==> reach(#[trigger] placed(rules, rule)[i]) >= reach(
                rule,
            ) || (rules.len() > 0 && reach(placed(rules, rule)[i]) >= reach(rules.last())),
        placed(rules, rule).len() == rules.len() + 1,
    decreases rules.len(),
{
    broadcast use vstd::seq_lib::group_to_multiset_ensures;

    if rules.len() == 0 || reach(rules.last()) >= reach(rule) {
        assert forall|i: int| 0 <= i < rules.len() implies reach(rules[i]) >= reach(rules.last()) by {
            if i < rules.len() - 1 {
                assert(rules[rules.len() - 1] == rules.last());
            }
        }
    } else {
        let front = rules.drop_last();
        lemma_placed(front, rule);
        let p = placed(front, rule);
        assert(placed(rules, rule) == p.push(rules.last()));
        assert forall|i: int| 0 <= i < p.len() implies reach(#[trigger] p[i]) >= reach(rules.last()) by {
            if front.len() > 0 {
                assert(front.last() == rules[rules.len() - 2]);
                assert(reach(rules[rules.len() - 2]) >= reach(rules[rules.len() - 1]));
            }
        }
        assert(rules == front.push(rules.last()));
        assert(rules.to_multiset() == front.to_multiset().insert(rules.last()));
    }
}

/// [`longest_first`] reorders the rules so that none stands behind a shorter
/// one.
pub proof fn lemma_longest_first(rules: Seq<(Seq<char>, Seq<char>)>)
    ensures
        is_longest_first(longest_first(rules)),
        longest_first(rules).to_multiset() == rules.to_multiset(),
        longest_first(rules).len() == rules.len(),
    decreases rules.len(),
{
    broadcast use vstd::seq_lib::group_to_multiset_ensures;

    if rules.len() > 0 {
        let front = rules.drop_last();
        lemma_longest_first(front);
        lemma_placed(longest_first(front), rules.last());
        assert(rules == front.push(rules.last()));
    } else {
        assert(rules =~= seq![]);
    }
}

impl Redirects {
    /// Puts the prefix rules into matching order, longest first, so that the
    /// most specific rule wins whatever order they were listed in.
    pub fn finish(&mut self)
        ensures
            final(self)@ == (RuleSet { prefix: longest_first(old(self)@.prefix), ..old(self)@ }),
    {
        let mut out: Vec<(String, String)> = Vec::new();
        let n: usize = self.prefix.len();
        let mut k: usize = 0;
        while k < n
            invariant
                0 <= k <= n,
                n == self.prefix.len(),
                self@ == old(self)@,
                rule_texts(out@) == longest_first(old(self)@.prefix.take(k as int)),
                out.len() == k,
            decreases n - k,
        {
            let rule = (self.prefix[k].0.clone(), self.prefix[k].1.clone());
            let ghost sorted = rule_texts(out@);
            let ghost text = (rule.0@, rule.1@);
            let mut j: usize = out.len();
            assert(sorted.take(j as int) == sorted);
            assert(placed(sorted.take(j as int), text) + sorted.skip(j as int) =~= placed(
                sorted,
                text,
            ));
            let len: usize = byte_len(rule.0.as_str());
            while j > 0 && byte_len(out[j - 1].0.as_str()) < len
                invariant
                    0 <= j <= out.len(),
                    sorted == rule_texts(out@),
                    text == (rule.0@, rule.1@),
                    len == reach(text),
                    placed(sorted.take(j as int), text) + sorted.skip(j as int) == placed(
                        sorted,
                        text,
                    ),
                decreases j,
            {
                assert(sorted.take(j as int).drop_last() == sorted.take(j - 1));
                assert(placed(sorted.take(j - 1), text) + sorted.skip(j - 1) =~= placed(
                    sorted.take(j as int),
                    text,
                ) + sorted.skip(j as int));
                j = j - 1;
            }
            let ghost before = out@;
            proof {
                assert(placed(sorted.take(j as int), text) == sorted.take(j as int).push(text));
                assert(self@.prefix[k as int] == text);
                let done = old(self)@.prefix.take(k + 1);
                assert(done.drop_last() == old(self)@.prefix.take(k as int));
                assert(done.last() == text);
            }
            out.insert(j, rule);
            assert(rule_texts(out@) =~= sorted.take(j as int).push(text) + sorted.skip(j as int));
            k = k + 1;
        }
        assert(old(self)@.prefix.take(n as int) == old(self)@.prefix);
        self.prefix = out;
        assert(self@ =~= RuleSet { prefix: longest_first(old(self)@.prefix), ..old(self)@ });
    }
}

// ------------------------------------------------------------------- matching

/// The first rule of a list whose prefix the path starts with.
pub open spec fn first_rule(rules: Seq<(Seq<char>, Seq<char>)>, path: Seq<char>) -> Option<
    (Seq<char>, Seq<char>),
>
    decreases rules.len(),
{
    if rules.len() == 0 {
        None
    } else if rules[0].0.is_prefix_of(path) {
        Some(rules[0])
    } else {
        first_rule(rules.skip(1), path)
    }
}

/// Where a rule set sends a path: the exact rule, then the first prefix rule
/// that matches, then the catch-all, which captures the whole path.
pub open spec fn redirect_of(v: RuleSet, path: Seq<char>) -> Option<Seq<char>> {
    if v.exact.contains_key(path) {
        Some(expanded(v.exact[path], path, ""@))
    } else {
        match first_rule(v.prefix, path) {
            Some(rule) => Some(expanded(rule.1, path, path.skip(rule.0.len() as int))),
            None => match v.all {
                Some(t) => Some(expanded(t, path, path)),
                None => None,
            },
        }
    }
}

impl Redirects {
    /// Resolves one request path to a redirect target, or `None` to keep
    /// serving. `path` is the path as sent, still percent-encoded, its query
    /// stripped.
    pub fn resolve(&self, path: &str) -> (r: Option<String>)
        ensures
            match r {
                Some(t) => redirect_of(self@, path@) == Some(t@),
                None => redirect_of(self@, path@) is None,
            },
    {
        if let Some(t) = self.exact.get(path) {
            assert(self@.exact.contains_key(path@));
            return Some(expand(t.as_str(), path, ""));
        }
        assert(!self@.exact.contains_key(path@));
        let whole = chars_of(path);
        let mut i: usize = 0;
        assert(self@.prefix.skip(0) == self@.prefix);
        while i < self.prefix.len()
            invariant
                0 <= i <= self.prefix.len(),
                whole@ == path@,
                !self@.exact.contains_key(path@),
                first_rule(self@.prefix.skip(i as int), path@) == first_rule(self@.prefix, path@),
            decreases self.prefix.len() - i,
        {
            let p = chars_of(self.prefix[i].0.as_str());
            assert(self@.prefix.skip(i as int)[0] == self@.prefix[i as int]);
            if let Some(rest) = strip(whole.as_slice(), p.as_slice()) {
                return Some(expand(self.prefix[i].1.as_str(), path, string_of(rest).as_str()));
            }
            assert(self@.prefix.skip(i as int).skip(1) == self@.prefix.skip(i + 1));
            i = i + 1;
        }
        match &self.all {
            Some(t) => Some(expand(t.as_str(), path, path)),
            None => None,
        }
    }
}

// ----------------------------------------------------------------------- laws

/// [`first_rule`] is a rule of the list that matches, with none before it that
/// does; there is none only where no rule matches.
proof fn lemma_first_rule(rules: Seq<(Seq<char>, Seq<char>)>, path: Seq<char>) -> (j: int)
    ensures
        match first_rule(rules, path) {
            Some(rule) => 0 <= j < rules.len() && rules[j] == rule && rule.0.is_prefix_of(path)
                && forall|i: int| 0 <= i < j ==> !(#[trigger] rules[i]).0.is_prefix_of(path),
            None => forall|i: int|
                0 <= i < rules.len() ==> !(#[trigger] rules[i]).0.is_prefix_of(path),
        },
    decreases rules.len(),
{
    if rules.len() == 0 || rules[0].0.is_prefix_of(path) {
        0
    } else {
        let k = lemma_first_rule(rules.skip(1), path);
        assert forall|i: int| 1 <= i < rules.len() implies #[trigger] rules[i] == rules.skip(1)[i
            - 1] by {}
        k + 1
    }
}

/// Of two prefixes of one path, the one with the longer encoding is the longer
/// text.
proof fn lemma_reach(a: Seq<char>, b: Seq<char>, path: Seq<char>)
    requires
        a.is_prefix_of(path),
        b.is_prefix_of(path),
        encode_utf8(a).len() >= encode_utf8(b).len(),
    ensures
        a.len() >= b.len(),
{
    if a.len() < b.len() {
        let rest = b.skip(a.len() as int);
        assert(b =~= a + rest);
        lemma_encode_concat(a, rest);
        lemma_encode_len(rest);
    }
}

/// The most specific prefix rule wins: among the rules of a list in matching
/// order, no rule that matches a path is longer than the one chosen.
pub proof fn law_longest_prefix_wins(
    rules: Seq<(Seq<char>, Seq<char>)>,
    path: Seq<char>,
    i: int,
)
    requires
        0 <= i < rules.len(),
        rules[i].0.is_prefix_of(path),
    ensures
        match first_rule(longest_first(rules), path) {
            Some(rule) => rules.contains(rule) && rule.0.is_prefix_of(path) && rule.0.len()
                >= rules[i].0.len(),
            None => false,
        },
{
    broadcast use vstd::seq_lib::group_to_multiset_ensures;

    let sorted = longest_first(rules);
    lemma_longest_first(rules);
    let j = lemma_first_rule(sorted, path);
    assert(rules.contains(rules[i]));
    assert(sorted.to_multiset().count(rules[i]) > 0);
    assert(sorted.contains(rules[i]));
    let k = choose|k: int| 0 <= k < sorted.len() && sorted[k] == rules[i];
    assert(sorted.contains(sorted[j]));
    assert(rules.to_multiset().count(sorted[j]) > 0);
    if j < k {
        assert(reach(sorted[j]) >= reach(sorted[k]));
    }
    lemma_reach(sorted[j].0, rules[i].0, path);
}

/// The order in which prefix rules are listed does not matter: two lists of the
/// same rules, with no prefix twice, send every path the same way once they are
/// in matching order.
pub proof fn law_listing_order_is_free(
    a: Seq<(Seq<char>, Seq<char>)>,
    b: Seq<(Seq<char>, Seq<char>)>,
    path: Seq<char>,
)
    requires
        a.to_multiset() == b.to_multiset(),
        forall|i: int, j: int|
            0 <= i < a.len() && 0 <= j < a.len() && (#[trigger] a[i]).0 == (#[trigger] a[j]).0 ==> i
                == j,
    ensures
        first_rule(longest_first(a), path) == first_rule(longest_first(b), path),
{
    broadcast use vstd::seq_lib::group_to_multiset_ensures;

    let sa = longest_first(a);
    let sb = longest_first(b);
    lemma_longest_first(a);
    lemma_longest_first(b);
    let j = lemma_first_rule(sa, path);
    let k = lemma_first_rule(sb, path);
    if first_rule(sa, path) is Some {
        assert(sa.contains(sa[j]));
        assert(b.to_multiset().count(sa[j]) > 0);
        let i = choose|i: int| 0 <= i < b.len() && b[i] == sa[j];
        assert(b.contains(sa[j]));
        law_longest_prefix_wins(b, path, i);
        assert(a.to_multiset().count(sb[k]) > 0);
        assert(a.contains(sb[k]));
        let m = choose|m: int| 0 <= m < a.len() && a[m] == sb[k];
        law_longest_prefix_wins(a, path, m);
        assert(sa[j].0 =~= sb[k].0);
        assert(a.to_multiset().count(sa[j]) > 0);
        assert(a.contains(sa[j]));
        let n = choose|n: int| 0 <= n < a.len() && a[n] == sa[j];
        assert(m == n);
    } else if first_rule(sb, path) is Some {
        assert(sb.contains(sb[k]));
        assert(sa.to_multiset().count(sb[k]) > 0);
        assert(sa.contains(sb[k]));
        let m = choose|m: int| 0 <= m < sa.len() && sa[m] == sb[k];
        assert(sa[m].0.is_prefix_of(path));
    }
}

/// What every rule set keeps that was built by adding rules to the empty one:
/// no target holds a control character, no exact rule leads back to itself or
/// names a capture that it does not have, and no prefix has two rules.
pub open spec fn is_sound(v: RuleSet) -> bool {
    &&& forall|p: Seq<char>| #[trigger]
        v.exact.contains_key(p) ==> control_free(v.exact[p]) && !is_loop(v.exact[p], p, ""@)
            && !names_capture(v.exact[p])
    &&& forall|i: int| 0 <= i < v.prefix.len() ==> control_free((#[trigger] v.prefix[i]).1)
    &&& forall|i: int, j: int|
        0 <= i < v.prefix.len() && 0 <= j < v.prefix.len() && (#[trigger] v.prefix[i]).0 == (
        #[trigger] v.prefix[j]).0 ==> i == j
    &&& match v.all {
        Some(t) => control_free(t) && !is_loop(t, "/probe"@, "/probe"@),
        None => true,
    }
}

/// Adding a rule, accepted or not, keeps a rule set sound, and the empty rule
/// set is sound.
pub proof fn law_adding_rules_keeps_soundness(v: RuleSet, pattern: Seq<char>, target: Seq<char>)
    requires
        is_sound(v),
    ensures
        is_sound(rule_added(v, pattern, target)),
        is_sound(no_rules()),
{
    let w = rule_added(v, pattern, target);
    if rule_refused(v, pattern, target) is None && pattern != "*"@ {
        match before_last(pattern, '*') {
            Some(prefix) => {
                assert forall|i: int| 0 <= i < w.prefix.len() implies control_free(
                    (#[trigger] w.prefix[i]).1,
                ) by {
                    if i < v.prefix.len() {
                        assert(w.prefix[i] == v.prefix[i]);
                    }
                }
            },
            None => {},
        }
    }
}

/// Putting a sound rule set into matching order keeps it sound.
pub proof fn law_matching_order_keeps_soundness(v: RuleSet)
    requires
        is_sound(v),
    ensures
        is_sound(RuleSet { prefix: longest_first(v.prefix), ..v }),
{
    broadcast use vstd::seq_lib::group_to_multiset_ensures;

    let sorted = longest_first(v.prefix);
    lemma_longest_first(v.prefix);
    assert forall|i: int| 0 <= i < sorted.len() implies control_free((#[trigger] sorted[i]).1) by {
        assert(sorted.contains(sorted[i]));
        assert(v.prefix.to_multiset().count(sorted[i]) > 0);
        assert(v.prefix.contains(sorted[i]));
    }
    assert forall|i: int, j: int|
        0 <= i < sorted.len() && 0 <= j < sorted.len() && (#[trigger] sorted[i]).0 == (
        #[trigger] sorted[j]).0 implies i == j by {
        assert(sorted.contains(sorted[i]) && sorted.contains(sorted[j]));
        assert(v.prefix.to_multiset().count(sorted[i]) > 0);
        assert(v.prefix.to_multiset().count(sorted[j]) > 0);
        assert(v.prefix.contains(sorted[i]) && v.prefix.contains(sorted[j]));
        let m = choose|m: int| 0 <= m < v.prefix.len() && v.prefix[m] == sorted[i];
        let n = choose|n: int| 0 <= n < v.prefix.len() && v.prefix[n] == sorted[j];
        assert(m == n);
        assert(v.prefix.no_duplicates());
        v.prefix.lemma_multiset_has_no_duplicates();
        sorted.lemma_multiset_has_no_duplicates_conv();
    }
}

/// Filling in a template brings in no control character that the template, the
/// path and the capture did not hold.
pub proof fn law_expansion_is_control_free(template: Seq<char>, path: Seq<char>, cap: Seq<char>)
    requires
        control_free(template),
        control_free(path),
        control_free(cap),
    ensures
        control_free(expanded(template, path, cap)),
    decreases template.len(),
{
    if template.len() > 0 {
        if template[0] == '$' && template.len() > 1 && (template[1] == '0' || template[1] == '1'
            || template[1] == '$') {
            law_expansion_is_control_free(template.skip(2), path, cap);
        } else {
            law_expansion_is_control_free(template.skip(1), path, cap);
        }
    }
}

/// A redirect never puts a control character into a `Location`: where the path
/// holds none, neither does the target that a sound rule set resolves it to.
pub proof fn law_redirect_is_control_free(v: RuleSet, path: Seq<char>)
    requires
        is_sound(v),
        control_free(path),
    ensures
        redirect_of(v, path) matches Some(target) ==> control_free(target),
{
    reveal_strlit("");
    if v.exact.contains_key(path) {
        law_expansion_is_control_free(v.exact[path], path, ""@);
    } else {
        let j = lemma_first_rule(v.prefix, path);
        match first_rule(v.prefix, path) {
            Some(rule) => {
                assert(rule == v.prefix[j]);
                law_expansion_is_control_free(rule.1, path, path.skip(rule.0.len() as int));
            },
            None => match v.all {
                Some(t) => law_expansion_is_control_free(t, path, path),
                None => {},
            },
        }
    }
}

/// An exact rule of a sound rule set never sends a path back to itself on the
/// same host, whatever query or fragment its target carries.
pub proof fn law_exact_rule_moves_on(v: RuleSet, path: Seq<char>)
    requires
        is_sound(v),
        v.exact.contains_key(path),
        !is_absolute(v.exact[path]),
    ensures
        match redirect_of(v, path) {
            Some(target) => path_part(target) != path,
            None => false,
        },
{
}

/// A template that names no capture expands to the same text whatever was
/// captured.
pub proof fn law_only_a_named_capture_counts(
    template: Seq<char>,
    path: Seq<char>,
    cap1: Seq<char>,
    cap2: Seq<char>,
)
    requires
        !names_capture(template),
    ensures
        expanded(template, path, cap1) == expanded(template, path, cap2),
    decreases template.len(),
{
    if template.len() > 0 {
        if template[0] == '$' && template.len() > 1 && (template[1] == '0' || template[1] == '$') {
            law_only_a_named_capture_counts(template.skip(2), path, cap1, cap2);
        } else {
            law_only_a_named_capture_counts(template.skip(1), path, cap1, cap2);
        }
    }
}

/// A refused rule changes nothing.
pub proof fn law_refused_rules_leave_no_trace(v: RuleSet, pattern: Seq<char>, target: Seq<char>)
    requires
        rule_refused(v, pattern, target) is Some,
    ensures
        rule_added(v, pattern, target) == v,
{
}

/// An exact rule beats every prefix rule, a prefix rule that matches beats the
/// catch-all, and what no rule matches is not redirected.
pub proof fn law_exact_beats_prefix_beats_catch_all(v: RuleSet, path: Seq<char>, i: int)
    ensures
        v.exact.contains_key(path) ==> redirect_of(v, path) == Some(
            expanded(v.exact[path], path, ""@),
        ),
        !v.exact.contains_key(path) && 0 <= i < v.prefix.len() && v.prefix[i].0.is_prefix_of(path)
            ==> exists|j: int|
            0 <= j <= i && (#[trigger] v.prefix[j]).0.is_prefix_of(path) && redirect_of(v, path)
                == Some(expanded(v.prefix[j].1, path, path.skip(v.prefix[j].0.len() as int))),
        !v.exact.contains_key(path) && (forall|j: int|
            0 <= j < v.prefix.len() ==> !(#[trigger] v.prefix[j]).0.is_prefix_of(path))
            ==> redirect_of(v, path) == match v.all {
            Some(t) => Some(expanded(t, path, path)),
            None => None,
        },
{
    let j = lemma_first_rule(v.prefix, path);
    if first_rule(v.prefix, path) is Some {
        assert(v.prefix[j].0.is_prefix_of(path));
    }
}

// --------------------------------------------------------------- what rules mean

/// A target is filled in from its front: a text without a dollar sign is itself,
/// `$0` is the whole path, `$1` what the rule captured, a doubled dollar sign one
/// such sign, and a dollar sign before anything else, or at the end, is itself.
pub proof fn law_targets_are_filled_in(
    a: Seq<char>,
    c: char,
    b: Seq<char>,
    path: Seq<char>,
    cap: Seq<char>,
)
    requires
        !a.contains('$'),
    ensures
        expanded(a, path, cap) == a,
        expanded(a + seq!['$', '0'] + b, path, cap) == a + path + expanded(b, path, cap),
        expanded(a + seq!['$', '1'] + b, path, cap) == a + cap + expanded(b, path, cap),
        expanded(a + seq!['$', '$'] + b, path, cap) == a + seq!['$'] + expanded(b, path, cap),
        c != '0' && c != '1' && c != '$' ==> expanded(a + seq!['$', c] + b, path, cap) == a + seq![
            '$',
        ] + expanded(seq![c] + b, path, cap),
        expanded(a + seq!['$'], path, cap) == a + seq!['$'],
    decreases a.len(),
{
    if a.len() > 0 {
        let r = a.skip(1);
        assert(a[0] != '$') by {
            assert(a.contains(a[0]));
        }
        assert(!r.contains('$')) by {
            assert forall|i: int| 0 <= i < r.len() implies r[i] != '$' by {
                assert(a.contains(a[i + 1]));
            }
        }
        law_targets_are_filled_in(r, c, b, path, cap);
        lemma_plain_first(a, seq![], path, cap);
        lemma_plain_first(a, seq!['$', '0'] + b, path, cap);
        lemma_plain_first(a, seq!['$', '1'] + b, path, cap);
        lemma_plain_first(a, seq!['$', '$'] + b, path, cap);
        lemma_plain_first(a, seq!['$', c] + b, path, cap);
        lemma_plain_first(a, seq!['$'], path, cap);
        assert(a + seq![] =~= a && r + seq![] =~= r);
        assert(seq![a[0]] + r =~= a);
        assert(a + seq!['$', '0'] + b =~= a + (seq!['$', '0'] + b));
        assert(r + seq!['$', '0'] + b =~= r + (seq!['$', '0'] + b));
        assert(a + seq!['$', '1'] + b =~= a + (seq!['$', '1'] + b));
        assert(r + seq!['$', '1'] + b =~= r + (seq!['$', '1'] + b));
        assert(a + seq!['$', '$'] + b =~= a + (seq!['$', '$'] + b));
        assert(r + seq!['$', '$'] + b =~= r + (seq!['$', '$'] + b));
        assert(a + seq!['$', c] + b =~= a + (seq!['$', c] + b));
        assert(r + seq!['$', c] + b =~= r + (seq!['$', c] + b));
        let e = expanded(b, path, cap);
        assert(seq![a[0]] + (r + path + e) =~= a + path + e);
        assert(seq![a[0]] + (r + cap + e) =~= a + cap + e);
        assert(seq![a[0]] + (r + seq!['$'] + e) =~= a + seq!['$'] + e);
        let f = expanded(seq![c] + b, path, cap);
        assert(seq![a[0]] + (r + seq!['$'] + f) =~= a + seq!['$'] + f);
        assert(seq![a[0]] + (r + seq!['$']) =~= a + seq!['$']);
    } else {
        lemma_dollar_first('0', b, path, cap);
        lemma_dollar_first('1', b, path, cap);
        lemma_dollar_first('$', b, path, cap);
        lemma_dollar_first(c, b, path, cap);
        assert(a =~= seq![]);
        assert(a + seq!['$', '0'] + b =~= seq!['$', '0'] + b);
        assert(a + seq!['$', '1'] + b =~= seq!['$', '1'] + b);
        assert(a + seq!['$', '$'] + b =~= seq!['$', '$'] + b);
        assert(a + seq!['$', c] + b =~= seq!['$', c] + b);
        assert(a + seq!['$'] =~= seq!['$']);
        assert(a + path =~= path && a + cap =~= cap);
        reveal_with_fuel(expanded, 2);
        assert(seq!['$'].skip(1) =~= seq![]);
        assert(expanded(seq!['$'], path, cap) =~= seq!['$']);
    }
}

proof fn lemma_plain_first(a: Seq<char>, rest: Seq<char>, path: Seq<char>, cap: Seq<char>)
    requires
        a.len() > 0,
        a[0] != '$',
    ensures
        expanded(a + rest, path, cap) == seq![a[0]] + expanded(a.skip(1) + rest, path, cap),
{
    let t = a + rest;
    assert(t[0] == a[0]);
    assert(t.skip(1) =~= a.skip(1) + rest);
}

proof fn lemma_dollar_first(c: char, b: Seq<char>, path: Seq<char>, cap: Seq<char>)
    ensures
        expanded(seq!['$', c] + b, path, cap) == (if c == '0' {
            path + expanded(b, path, cap)
        } else if c == '1' {
            cap + expanded(b, path, cap)
        } else if c == '$' {
            seq!['$'] + expanded(b, path, cap)
        } else {
            seq!['$'] + expanded(seq![c] + b, path, cap)
        }),
{
    let t = seq!['$', c] + b;
    assert(t[0] == '$' && t[1] == c);
    assert(t.skip(2) =~= b);
    assert(t.skip(1) =~= seq![c] + b);
}

/// The path of a target ends at its query or at its fragment.
pub proof fn law_the_path_of_a_target(p: Seq<char>, rest: Seq<char>)
    requires
        !p.contains('?') && !p.contains('#'),
    ensures
        path_part(p) == p,
        path_part(p + seq!['?'] + rest) == p,
        path_part(p + seq!['#'] + rest) == p,
    decreases p.len(),
{
    let q = p + seq!['?'] + rest;
    let h = p + seq!['#'] + rest;
    if p.len() > 0 {
        let r = p.skip(1);
        assert(p.contains(p[0]));
        assert(!r.contains('?') && !r.contains('#')) by {
            assert forall|i: int| 0 <= i < r.len() implies r[i] != '?' && r[i] != '#' by {
                assert(p.contains(p[i + 1]));
            }
        }
        law_the_path_of_a_target(r, rest);
        assert(q[0] == p[0] && h[0] == p[0]);
        assert(q.skip(1) =~= r + seq!['?'] + rest);
        assert(h.skip(1) =~= r + seq!['#'] + rest);
        assert(seq![p[0]] + r =~= p);
    } else {
        assert(q[0] == '?' && h[0] == '#');
        assert(p =~= seq![]);
    }
}

/// A capture is what it is called: `$1` is named where it stands behind no other
/// dollar sign, and a higher number is unknown there; `$0` and a doubled dollar sign
/// are neither, and what follows them is looked at anew.
pub proof fn law_captures_are_known_by_number(a: Seq<char>, d: char, b: Seq<char>)
    requires
        !a.contains('$'),
        '2' <= d <= '9',
    ensures
        !names_capture(a),
        unknown_capture(a) is None,
        names_capture(a + seq!['$', '1'] + b),
        unknown_capture(a + seq!['$', d] + b) == Some(d),
        names_capture(a + seq!['$', '0'] + b) == names_capture(b),
        names_capture(a + seq!['$', '$'] + b) == names_capture(b),
        unknown_capture(a + seq!['$', '0'] + b) == unknown_capture(b),
        unknown_capture(a + seq!['$', '1'] + b) == unknown_capture(b),
        unknown_capture(a + seq!['$', '$'] + b) == unknown_capture(b),
    decreases a.len(),
{
    let t1 = a + seq!['$', '1'] + b;
    let td = a + seq!['$', d] + b;
    let t0 = a + seq!['$', '0'] + b;
    let tt = a + seq!['$', '$'] + b;
    if a.len() > 0 {
        let r = a.skip(1);
        assert(a.contains(a[0]));
        assert(!r.contains('$')) by {
            assert forall|i: int| 0 <= i < r.len() implies r[i] != '$' by {
                assert(a.contains(a[i + 1]));
            }
        }
        law_captures_are_known_by_number(r, d, b);
        assert(t1[0] == a[0] && td[0] == a[0] && t0[0] == a[0] && tt[0] == a[0]);
        assert(t1.skip(1) =~= r + seq!['$', '1'] + b);
        assert(td.skip(1) =~= r + seq!['$', d] + b);
        assert(t0.skip(1) =~= r + seq!['$', '0'] + b);
        assert(tt.skip(1) =~= r + seq!['$', '$'] + b);
        if a.len() < 2 {
            assert(r =~= seq![]);
        }
    } else {
        assert(t1[0] == '$' && t1[1] == '1' && t1.skip(2) =~= b);
        assert(td[0] == '$' && td[1] == d);
        assert(t0[0] == '$' && t0[1] == '0' && t0.skip(2) =~= b);
        assert(tt[0] == '$' && tt[1] == '$' && tt.skip(2) =~= b);
    }
}

/// A target that is written out: an absolute URL or a path, without dollar signs and
/// control characters.
pub open spec fn is_written_out(target: Seq<char>) -> bool {
    &&& target.len() > 0
    &&& target[0] == '/' || "http://"@.is_prefix_of(target) || "https://"@.is_prefix_of(target)
    &&& !target.contains('$')
    &&& forall|i: int| 0 <= i < target.len() ==> !is_control(#[trigger] target[i])
}

/// A plain rule is taken, and does what it says. An exact rule, of a path without a
/// star, sends that path, and no other, to its target, where there is no such rule
/// yet and the target is not that path.
pub proof fn law_exact_rules_are_taken(
    v: RuleSet,
    pattern: Seq<char>,
    target: Seq<char>,
    path: Seq<char>,
)
    requires
        is_written_out(target),
        pattern.len() > 0 && pattern[0] == '/' && !pattern.contains('*'),
        !v.exact.contains_key(pattern),
        "http://"@.is_prefix_of(target) || "https://"@.is_prefix_of(target) || path_part(target)
            != pattern,
    ensures
        rule_refused(v, pattern, target) is None,
        redirect_of(rule_added(v, pattern, target), pattern) == Some(target),
        path != pattern ==> redirect_of(rule_added(v, pattern, target), path) == redirect_of(
            v,
            path,
        ),
{
    reveal_strlit("*");
    reveal_strlit("");
    law_targets_are_filled_in(target, 'x', seq![], pattern, ""@);
    law_captures_are_known_by_number(target, '2', seq![]);
    assert("*"@[0] == '*');
    assert(before_last(pattern, '*') is None) by {
        if pattern.last() == '*' {
            assert(pattern.contains(pattern.last()));
        }
    }
}

/// A prefix rule, of a path that ends in a slash and a star, sends all that is below
/// that path to its target, with what was behind the slash in place of `$1`, unless
/// an exact rule or another prefix rule takes it first; other rules stay.
pub proof fn law_prefix_rules_are_taken(
    v: RuleSet,
    prefix: Seq<char>,
    base: Seq<char>,
    rest: Seq<char>,
)
    requires
        is_written_out(base),
        "http://"@.is_prefix_of(base) || "https://"@.is_prefix_of(base),
        prefix.len() > 0 && prefix[0] == '/' && prefix.last() == '/' && !prefix.contains('*'),
        forall|i: int| 0 <= i < v.prefix.len() ==> (#[trigger] v.prefix[i]).0 != prefix,
    ensures
        ({
            let pattern = prefix + seq!['*'];
            let target = base + seq!['$', '1'];
            let w = rule_added(v, pattern, target);
            let path = prefix + rest;
            &&& rule_refused(v, pattern, target) is None
            &&& w.exact == v.exact && w.all == v.all
            &&& w.prefix == v.prefix.push((prefix, target))
            &&& !v.exact.contains_key(path) && (forall|i: int|
                0 <= i < v.prefix.len() ==> !(#[trigger] v.prefix[i]).0.is_prefix_of(path))
                ==> redirect_of(w, path) == Some(base + rest)
        }),
{
    reveal_strlit("*");
    let pattern = prefix + seq!['*'];
    let target = base + seq!['$', '1'];
    let path = prefix + rest;
    lemma_capture_target(base);
    assert(pattern.drop_last() =~= prefix);
    assert(pattern[0] == '/' && "*"@[0] == '*');
    let w = rule_added(v, pattern, target);
    assert(w.prefix == v.prefix.push((prefix, target)));
    if !v.exact.contains_key(path) && (forall|i: int|
        0 <= i < v.prefix.len() ==> !(#[trigger] v.prefix[i]).0.is_prefix_of(path)) {
        let n = v.prefix.len() as int;
        assert(w.prefix[n] == (prefix, target));
        assert(prefix =~= path.subrange(0, prefix.len() as int));
        let j = lemma_first_rule(w.prefix, path);
        if j < n {
            assert(w.prefix[j] == v.prefix[j]);
        }
        assert(path.skip(prefix.len() as int) =~= rest);
        law_targets_are_filled_in(base, 'x', seq![], path, rest);
        assert(base + seq!['$', '1'] + seq![] =~= target);
        assert(base + rest + seq![] =~= base + rest);
    }
}

proof fn lemma_capture_target(base: Seq<char>)
    requires
        is_written_out(base),
        "http://"@.is_prefix_of(base) || "https://"@.is_prefix_of(base),
    ensures
        target_refused(base + seq!['$', '1']) is None,
        is_absolute(base + seq!['$', '1']),
{
    let target = base + seq!['$', '1'];
    law_captures_are_known_by_number(base, '2', seq![]);
    assert(base + seq!['$', '1'] + seq![] =~= target);
    assert(control_free(target)) by {
        assert forall|i: int| 0 <= i < target.len() implies !is_control(#[trigger] target[i]) by {
            if i < base.len() {
                assert(target[i] == base[i]);
            }
        }
    }
    reveal_strlit("http://");
    reveal_strlit("https://");
    if "http://"@.is_prefix_of(base) {
        assert("http://"@ =~= target.subrange(0, 7));
    } else {
        assert("https://"@ =~= target.subrange(0, 8));
    }
}

/// The catch-all sends whatever no other rule takes to its target, with the whole
/// path in place of `$0`; a site has at most one.
pub proof fn law_the_catch_all_takes_the_rest(
    v: RuleSet,
    base: Seq<char>,
    other: Seq<char>,
    path: Seq<char>,
)
    requires
        is_written_out(base),
        "http://"@.is_prefix_of(base) || "https://"@.is_prefix_of(base),
        v.all is None,
    ensures
        ({
            let target = base + seq!['$', '0'];
            let w = rule_added(v, "*"@, target);
            &&& rule_refused(v, "*"@, target) is None
            &&& w.exact == v.exact && w.prefix == v.prefix
            &&& redirect_of(v, path) is Some ==> redirect_of(w, path) == redirect_of(v, path)
            &&& redirect_of(v, path) is None ==> redirect_of(w, path) == Some(base + path)
            &&& rule_refused(w, "*"@, other) is Some
        }),
{
    let target = base + seq!['$', '0'];
    law_captures_are_known_by_number(base, '2', seq![]);
    assert(base + seq!['$', '0'] + seq![] =~= target);
    assert(control_free(target)) by {
        assert forall|i: int| 0 <= i < target.len() implies !is_control(#[trigger] target[i]) by {
            if i < base.len() {
                assert(target[i] == base[i]);
            }
        }
    }
    reveal_strlit("http://");
    reveal_strlit("https://");
    if "http://"@.is_prefix_of(base) {
        assert("http://"@ =~= target.subrange(0, 7));
    } else {
        assert("https://"@ =~= target.subrange(0, 8));
    }
    law_targets_are_filled_in(base, 'x', seq![], path, path);
    assert(base + path + seq![] =~= base + path);
}

/// What no rule may be: one with a control character in its target, with no target,
/// with a target that is neither a URL nor a path, or with a capture that there is
/// not; with a pattern that is no path, or a star anywhere but behind its last
/// slash; one that is there already; and an exact rule that leads back to itself or
/// names what it did not capture.
pub proof fn law_bad_rules_are_refused(
    v: RuleSet,
    pattern: Seq<char>,
    target: Seq<char>,
    i: int,
    a: Seq<char>,
    d: char,
    b: Seq<char>,
)
    requires
        !a.contains('$'),
        '2' <= d <= '9',
    ensures
        0 <= i < target.len() && is_control(target[i]) ==> rule_refused(v, pattern, target) is Some,
        rule_refused(v, pattern, seq![]) is Some,
        target.len() > 0 && target[0] != '/' && target[0] != '$' && !"http://"@.is_prefix_of(target)
            && !"https://"@.is_prefix_of(target) ==> rule_refused(v, pattern, target) is Some,
        rule_refused(v, pattern, a + seq!['$', d] + b) is Some,
        pattern.len() == 0 || (pattern[0] != '/' && pattern != "*"@) ==> rule_refused(
            v,
            pattern,
            target,
        ) is Some,
        0 <= i < pattern.len() - 1 && pattern[i] == '*' ==> rule_refused(v, pattern, target) is Some,
        pattern.len() > 1 && pattern.last() == '*' && pattern[pattern.len() - 2] != '/'
            ==> rule_refused(v, pattern, target) is Some,
        v.exact.contains_key(pattern) && !pattern.contains('*') ==> rule_refused(v, pattern, target)
            is Some,
        pattern.len() > 1 && pattern.last() == '*' && (exists|j: int|
            0 <= j < v.prefix.len() && (#[trigger] v.prefix[j]).0 == pattern.drop_last())
            ==> rule_refused(v, pattern, target) is Some,
        !pattern.contains('*') && target == pattern && !target.contains('$') && !target.contains('?')
            && !target.contains('#') ==> rule_refused(v, pattern, target) is Some,
        !pattern.contains('*') ==> rule_refused(v, pattern, a + seq!['$', '1'] + b) is Some,
{
    reveal_strlit("*");
    reveal_strlit("$0");
    reveal_strlit("http://");
    reveal_strlit("https://");
    assert("*"@[0] == '*' && "*"@.len() == 1);
    law_captures_are_known_by_number(a, d, b);
    if target.len() > 0 && "$0"@.is_prefix_of(target) {
        assert(target.subrange(0, 2)[0] == '$');
    }
    if pattern.len() > 0 && !pattern.contains('*') {
        assert(pattern.contains(pattern.last()));
    }
    if 0 <= i < pattern.len() - 1 && pattern[i] == '*' {
        assert(pattern.drop_last()[i] == '*');
        assert(pattern.contains('*'));
        assert(pattern != "*"@);
    }
    if !pattern.contains('*') {
        if pattern == "*"@ {
            assert(pattern.contains(pattern[0]));
        }
        if target == pattern && !target.contains('$') && !target.contains('?') && !target.contains(
            '#',
        ) {
            law_targets_are_filled_in(target, 'x', seq![], pattern, ""@);
            law_the_path_of_a_target(target, seq![]);
            if target.len() > 0 && target[0] == '/' {
                if "http://"@.is_prefix_of(target) {
                    assert(target.subrange(0, 7)[0] == 'h');
                }
                if "https://"@.is_prefix_of(target) {
                    assert(target.subrange(0, 8)[0] == 'h');
                }
            }
        }
    }
}

/// What leads back to where it came from is refused: a rule whose target is the whole
/// path, whatever its pattern, and a prefix rule that only puts back what it took.
pub proof fn law_loops_are_refused(v: RuleSet, path: Seq<char>, prefix: Seq<char>, rest: Seq<char>)
    requires
        !path.contains('?') && !path.contains('#') && !path.contains('*'),
        !prefix.contains('?') && !prefix.contains('#') && !prefix.contains('*'),
        !prefix.contains('$'),
        prefix.len() > 0 && prefix[0] == '/' && prefix.last() == '/',
    ensures
        rule_refused(v, path, seq!['$', '0']) is Some,
        rule_refused(v, "*"@, seq!['$', '0']) is Some,
        rule_refused(v, prefix.push('*'), seq!['$', '0']) is Some,
        rule_refused(v, prefix.push('*'), prefix + seq!['$', '1']) is Some,
        rule_refused(v, prefix.push('*'), prefix + seq!['$', '1'] + seq!['?'] + rest) is Some,
        rule_refused(v, path, seq!['$', '0'] + seq!['#'] + rest) is Some,
{
    let none: Seq<char> = seq![];
    let whole = seq!['$', '0'];
    reveal_strlit("*");
    reveal_strlit("/probe");
    reveal_strlit("probe");
    reveal_strlit("http://");
    reveal_strlit("https://");
    assert("*"@.len() == 1 && "*"@[0] == '*');
    assert(none + whole + none =~= whole);
    lemma_relative(whole);
    lemma_relative(whole + seq!['#'] + rest);
    assert(none + whole + (seq!['#'] + rest) =~= whole + seq!['#'] + rest);
    // the whole path
    if path.len() > 0 {
        if path == "*"@ {
            assert(path.contains(path[0]));
        }
        law_targets_are_filled_in(none, 'x', none, path, ""@);
        law_targets_are_filled_in(none, 'x', seq!['#'] + rest, path, ""@);
        assert(none + path + none =~= path);
        law_the_path_of_a_target(path, none);
        lemma_cut_at_mark(path, '#', rest, path, ""@);
        assert(none + path + expanded(seq!['#'] + rest, path, ""@) =~= path + expanded(
            seq!['#'] + rest,
            path,
            ""@,
        ));
        assert(path.contains(path.last()));
    }
    // every path
    let any = "/probe"@;
    law_targets_are_filled_in(none, 'x', none, any, any);
    assert(none + any + none =~= any);
    law_the_path_of_a_target(any, none);
    // a prefix
    let pattern = prefix.push('*');
    assert(pattern.drop_last() =~= prefix);
    assert(pattern != "*"@);
    assert(prefix.contains(prefix.last()));
    let probe = prefix + "probe"@;
    assert(!probe.contains('?') && !probe.contains('#')) by {
        assert forall|i: int| 0 <= i < probe.len() implies probe[i] != '?' && probe[i] != '#' by {
            if i < prefix.len() {
                assert(prefix.contains(prefix[i]));
            }
        }
    }
    law_targets_are_filled_in(none, 'x', none, probe, "probe"@);
    assert(none + probe + none =~= probe);
    law_the_path_of_a_target(probe, none);
    let back = prefix + seq!['$', '1'];
    lemma_relative(back);
    lemma_relative(back + seq!['?'] + rest);
    law_targets_are_filled_in(prefix, 'x', none, probe, "probe"@);
    assert(back + none =~= back);
    assert(prefix + "probe"@ + none =~= probe);
    law_targets_are_filled_in(prefix, 'x', seq!['?'] + rest, probe, "probe"@);
    assert(back + (seq!['?'] + rest) =~= back + seq!['?'] + rest);
    lemma_cut_at_mark(probe, '?', rest, probe, "probe"@);
}

/// A target that starts with no letter is no URL.
proof fn lemma_relative(target: Seq<char>)
    requires
        target.len() > 0,
        target[0] != 'h',
    ensures
        !is_absolute(target),
{
    reveal_strlit("http://");
    reveal_strlit("https://");
    if "http://"@.is_prefix_of(target) {
        assert(target.subrange(0, 7)[0] == 'h');
    }
    if "https://"@.is_prefix_of(target) {
        assert(target.subrange(0, 8)[0] == 'h');
    }
}

/// What stands behind a query's mark or a fragment's does not belong to the path.
proof fn lemma_cut_at_mark(p: Seq<char>, mark: char, rest: Seq<char>, path: Seq<char>, cap: Seq<char>)
    requires
        !p.contains('?') && !p.contains('#'),
        mark == '?' || mark == '#',
    ensures
        path_part(p + expanded(seq![mark] + rest, path, cap)) == p,
{
    let t = seq![mark] + rest;
    assert(t.skip(1) =~= rest);
    let more = expanded(rest, path, cap);
    assert(expanded(t, path, cap) =~= seq![mark] + more);
    law_the_path_of_a_target(p, more);
    assert(p + (seq![mark] + more) =~= p + seq![mark] + more);
}

/// A refusal says what is wrong: a missing target is called empty, another that is
/// refused is shown, and so is a pattern.
pub proof fn law_refusals_show_what_they_refuse(v: RuleSet, pattern: Seq<char>, target: Seq<char>)
    requires
        control_free(target),
    ensures
        rule_refused(v, pattern, seq![]) == Some("redirect: empty target"@),
        target.len() > 0 && target[0] != '/' && target[0] != '$' && target[0] != 'h' ==> (target
            + ")"@).is_suffix_of(rule_refused(v, pattern, target)->0),
        target.len() > 0 && target[0] == '/' && !target.contains('$') && pattern.len() > 0
            && pattern[0] != '/' && pattern != "*"@ ==> (pattern + ")"@).is_suffix_of(
            rule_refused(v, pattern, target)->0,
        ),
        target.len() > 0 && target[0] == '/' && !target.contains('$') && v.all is Some
            ==> "redirect: duplicate '*' rule"@.is_prefix_of(rule_refused(v, "*"@, target)->0)
            || path_part(target) == "/probe"@,
        "redirect: "@.is_prefix_of(rule_refused(v, pattern, seq![])->0),
{
    reveal_strlit("$0");
    reveal_strlit("*");
    reveal_strlit("redirect: ");
    reveal_strlit("redirect: empty target");
    reveal_strlit("redirect: duplicate '*' rule");
    reveal_strlit("redirect: duplicate '*' rule (a site has at most one catch-all)");
    assert("redirect: "@ =~= "redirect: empty target"@.subrange(0, 10));
    assert("redirect: duplicate '*' rule"@
        =~= "redirect: duplicate '*' rule (a site has at most one catch-all)"@.subrange(0, 28));
    if target.len() > 0 && target[0] != 'h' {
        lemma_relative(target);
        if "$0"@.is_prefix_of(target) {
            assert(target.subrange(0, 2)[0] == '$');
        }
        if target[0] == '/' && !target.contains('$') {
            law_captures_are_known_by_number(target, '2', seq![]);
            law_targets_are_filled_in(target, 'x', seq![], "/probe"@, "/probe"@);
        }
        let text = rule_refused(v, pattern, target)->0;
        let shown = target + ")"@;
        if target[0] != '/' && target[0] != '$' {
            assert(shown =~= text.subrange(text.len() - shown.len(), text.len() as int));
        }
        let other = pattern + ")"@;
        if target[0] == '/' && !target.contains('$') && pattern.len() > 0 && pattern[0] != '/'
            && pattern != "*"@ {
            assert(other =~= text.subrange(text.len() - other.len(), text.len() as int));
        }
    }
}

} // verus!
