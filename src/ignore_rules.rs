//! The ignore resolver: which relative paths a run leaves out.
use vstd::prelude::*;
use vstd::string::*;
use crate::config::{output_name, respects_vcs_ignore, Config};
use crate::text::{
    chars_of, lines, lines_of, same_text, string_of_range, string_views, trim, trim_bounds, views_of,
};

verus! {

/// Whether a glob pattern compiles.
pub uninterp spec fn glob_compiles(pattern: Seq<char>) -> bool;

/// Whether a compiled glob pattern accepts a text.
pub uninterp spec fn glob_accepts(pattern: Seq<char>, text: Seq<char>) -> bool;

/// A pattern that does not compile matches nothing.
pub open spec fn glob_matches(pattern: Seq<char>, text: Seq<char>) -> bool {
    glob_compiles(pattern) && glob_accepts(pattern, text)
}

/// Relies on `glob::Pattern::new`: whether the pattern compiles.
#[verifier::external_body]
fn glob_valid(pattern: &str) -> (r: bool)
    ensures
        r == glob_compiles(pattern@),
{
    glob::Pattern::new(pattern).is_ok()
}

/// Relies on `glob::Pattern::matches` with default options, on the pattern that
/// `glob::Pattern::new` compiles; a pattern that fails to compile accepts nothing.
#[verifier::external_body]
pub(crate) fn glob_match(pattern: &str, text: &str) -> (r: bool)
    ensures
        r == (glob_compiles(pattern@) && glob_accepts(pattern@, text@)),
{
    match glob::Pattern::new(pattern) {
        Ok(p) => p.matches(text),
        Err(_) => false,
    }
}

/// The lower-case form of a text.
pub uninterp spec fn lower_of(s: Seq<char>) -> Seq<char>;

/// Relies on `str::to_lowercase`: the result depends on the characters alone.
#[verifier::external_body]
pub(crate) fn lowercase(s: &str) -> (r: String)
    ensures
        r@ == lower_of(s@),
{
    s.to_lowercase()
}

/// `path[a..b]` is a whole segment: bounded by `/` or by the ends of the path.
pub open spec fn is_segment(path: Seq<char>, a: int, b: int) -> bool {
    &&& 0 <= a <= b <= path.len()
    &&& (a == 0 || path[a - 1] == '/')
    &&& (b == path.len() || path[b] == '/')
    &&& !path.subrange(a, b).contains('/')
}

/// The segment `path[a..b]` equals the rule or is accepted by it as a glob.
pub open spec fn segment_hit(rule: Seq<char>, path: Seq<char>, a: int, b: int) -> bool {
    path.subrange(a, b) == rule || glob_matches(rule, path.subrange(a, b))
}

/// Index of the last `/` of `s`, or -1.
pub open spec fn last_slash(s: Seq<char>) -> int
    decreases s.len(),
{
    if s.len() == 0 {
        -1
    } else if s.last() == '/' {
        s.len() - 1
    } else {
        last_slash(s.drop_last())
    }
}

/// Whether one rule excludes a relative path. A path equal to the rule is always
/// excluded. A rule ending in `/` excludes that directory and what lies beneath it.
/// A rule with `/` and `*` is split at its last `/`: the part up to it must prefix
/// the path literally, and the rest of the path, free of `/`, must match the part
/// after it. A rule without `/` excludes a path when one of its segments equals or
/// matches it. Any other rule must match the whole path.
pub open spec fn rule_matches(rule: Seq<char>, path: Seq<char>) -> bool {
    if path == rule {
        true
    } else if rule.len() > 0 && rule.last() == '/' {
        rule.is_prefix_of(path) || path == rule.drop_last()
    } else if rule.contains('/') && rule.contains('*') {
        let k = last_slash(rule);
        let dir = rule.take(k + 1);
        let rest = path.skip(dir.len() as int);
        dir.is_prefix_of(path) && !rest.contains('/') && glob_matches(rule.skip(k + 1), rest)
    } else if !rule.contains('/') {
        exists|a: int, b: int| is_segment(path, a, b) && segment_hit(rule, path, a, b)
    } else {
        glob_matches(rule, path)
    }
}

proof fn lemma_last_slash(s: Seq<char>, k: int)
    requires
        -1 <= k < s.len(),
        k == -1 || s[k] == '/',
        forall|i: int| k < i < s.len() ==> s[i] != '/',
    ensures
        last_slash(s) == k,
    decreases s.len(),
{
    if s.len() > 0 && s.last() != '/' {
        let t = s.drop_last();
        if k == s.len() - 1 {
            assert(false);
        }
        assert forall|i: int| k < i < t.len() implies t[i] != '/' by {
            assert(t[i] == s[i]);
        }
        if k >= 0 {
            assert(t[k] == s[k]);
        }
        lemma_last_slash(t, k);
    }
}

fn last_slash_exec(v: &Vec<char>) -> (k: usize)
    requires
        v@.contains('/'),
    ensures
        k < v@.len(),
        last_slash(v@) == k,
{
    let mut j = v.len();
    while j > 0 && v[j - 1] != '/'
        invariant
            j <= v@.len(),
            forall|i: int| j <= i < v@.len() ==> v@[i] != '/',
        decreases j,
    {
        j = j - 1;
    }
    if j == 0 {
        assert(false) by {
            let i = choose|i: int| 0 <= i < v@.len() && v@[i] == '/';
        }
    }
    proof {
        lemma_last_slash(v@, j - 1);
    }
    j - 1
}

fn contains_char(v: &Vec<char>, c: char) -> (r: bool)
    ensures
        r == v@.contains(c),
{
    let mut i: usize = 0;
    while i < v.len()
        invariant
            i <= v@.len(),
            forall|j: int| 0 <= j < i ==> v@[j] != c,
        decreases v@.len() - i,
    {
        if v[i] == c {
            return true;
        }
        i = i + 1;
    }
    false
}

fn prefix_of(p: &Vec<char>, v: &Vec<char>) -> (r: bool)
    ensures
        r == p@.is_prefix_of(v@),
{
    if p.len() > v.len() {
        return false;
    }
    let mut i: usize = 0;
    while i < p.len()
        invariant
            p@.len() <= v@.len(),
            i <= p@.len(),
            forall|j: int| 0 <= j < i ==> p@[j] == v@[j],
        decreases p@.len() - i,
    {
        if p[i] != v[i] {
            assert(v@.subrange(0, p@.len() as int)[i as int] == v@[i as int]);
            return false;
        }
        i = i + 1;
    }
    assert(p@ =~= v@.subrange(0, p@.len() as int));
    true
}

proof fn lemma_segment_start(path: Seq<char>, start: int, i: int, a: int, b: int)
    requires
        0 <= start <= i <= path.len(),
        start == 0 || path[start - 1] == '/',
        forall|j: int| start <= j < i ==> path[j] != '/',
        is_segment(path, a, b),
        start <= b <= i,
    ensures
        a == start,
{
    if a < start {
        assert(path.subrange(a, b)[start - 1 - a] == path[start - 1]);
    }
    if a > start {
        assert(path[a - 1] != '/');
    }
}

fn any_segment_hit(rule: &str, path: &str, pv: &Vec<char>) -> (r: bool)
    requires
        pv@ == path@,
    ensures
        r == (exists|a: int, b: int| is_segment(path@, a, b) && segment_hit(rule@, path@, a, b)),
{
    let n = pv.len();
    let mut start: usize = 0;
    let mut i: usize = 0;
    while i < n
        invariant
            start <= i <= n == pv@.len(),
            pv@ == path@,
            start == 0 || pv@[start - 1] == '/',
            forall|j: int| start <= j < i ==> pv@[j] != '/',
            forall|a: int, b: int|
                #[trigger] is_segment(path@, a, b) && b < start ==> !segment_hit(rule@, path@, a, b),
        decreases n - i,
    {
        if pv[i] == '/' {
            let seg = path.substring_char(start, i);
            assert(!path@.subrange(start as int, i as int).contains('/')) by {
                if path@.subrange(start as int, i as int).contains('/') {
                    let j = choose|j: int|
                        0 <= j < i - start && path@.subrange(start as int, i as int)[j] == '/';
                    assert(pv@[start + j] == '/');
                }
            }
            assert(is_segment(path@, start as int, i as int));
            if same_text(seg, rule) || glob_match(rule, seg) {
                return true;
            }
            assert forall|a: int, b: int| #[trigger]
                is_segment(path@, a, b) && b < i + 1 implies !segment_hit(rule@, path@, a, b) by {
                if b >= start {
                    if b < i {
                        assert(pv@[b] == '/');
                    }
                    lemma_segment_start(path@, start as int, i as int, a, b);
                }
            }
            start = i + 1;
        }
        i = i + 1;
    }
    let seg = path.substring_char(start, n);
    assert(!path@.subrange(start as int, n as int).contains('/')) by {
        if path@.subrange(start as int, n as int).contains('/') {
            let j = choose|j: int| 0 <= j < n - start && path@.subrange(start as int, n as int)[j] == '/';
            assert(pv@[start + j] == '/');
        }
    }
    assert(is_segment(path@, start as int, n as int));
    if same_text(seg, rule) || glob_match(rule, seg) {
        return true;
    }
    assert forall|a: int, b: int| #[trigger] is_segment(path@, a, b) implies !segment_hit(
        rule@,
        path@,
        a,
        b,
    ) by {
        if b >= start {
            if b < n {
                assert(pv@[b] == '/');
            }
            lemma_segment_start(path@, start as int, n as int, a, b);
        }
    }
    false
}

/// Whether `rule` excludes the relative path `path`.
pub fn rule_matches_path(rule: &str, path: &str) -> (r: bool)
    ensures
        r == rule_matches(rule@, path@),
{
    let rv = chars_of(rule);
    let pv = chars_of(path);
    if same_text(rule, path) {
        return true;
    }
    let rn = rv.len();
    if rn > 0 && rv[rn - 1] == '/' {
        if prefix_of(&rv, &pv) {
            return true;
        }
        let dir = rule.substring_char(0, rn - 1);
        return same_text(path, dir);
    }
    if contains_char(&rv, '/') && contains_char(&rv, '*') {
        let k = last_slash_exec(&rv);
        let dir = string_of_range(&rv, 0, k + 1);
        let dv = chars_of(dir.as_str());
        if !prefix_of(&dv, &pv) {
            return false;
        }
        let rest = path.substring_char(dv.len(), pv.len());
        let restv = chars_of(rest);
        if contains_char(&restv, '/') {
            return false;
        }
        let pat = rule.substring_char(k + 1, rn);
        assert(rv@.skip(k + 1) =~= rv@.subrange(k + 1, rn as int));
        assert(pv@.skip(dv@.len() as int) =~= pv@.subrange(dv@.len() as int, pv@.len() as int));
        assert(rv@.take(k + 1) =~= rv@.subrange(0, k + 1));
        return glob_match(pat, rest);
    }
    if !contains_char(&rv, '/') {
        return any_segment_hit(rule, path, &pv);
    }
    glob_match(rule, path)
}

/// Where a rule comes from.
#[derive(Debug, PartialEq, Eq, Structural, Clone, Copy)]
pub enum RuleOrigin {
    /// The run's own ignore patterns.
    Explicit,
    /// The output file, the VCS metadata directory, the config and ignore files.
    AlwaysOn,
    /// A line of the VCS ignore file.
    VcsIgnore,
    /// The bundle of the language hint.
    LanguageDefault,
}

/// A pattern together with its origin.
#[derive(Debug, Clone)]
pub struct IgnoreRule {
    pub pattern: String,
    pub origin: RuleOrigin,
}

/// The patterns of a sequence of rules.
pub open spec fn patterns_of(rules: Seq<IgnoreRule>) -> Seq<Seq<char>> {
    rules.map_values(|r: IgnoreRule| r.pattern@)
}

/// Whether some pattern of `patterns` excludes `path`.
pub open spec fn any_rule_matches(patterns: Seq<Seq<char>>, path: Seq<char>) -> bool {
    exists|i: int| 0 <= i < patterns.len() && rule_matches(#[trigger] patterns[i], path)
}

/// The patterns a language hint brings, keyed by its lower-case name.
pub open spec fn language_bundle(lowered: Seq<char>) -> Seq<Seq<char>> {
    if lowered == "python"@ {
        python_bundle()
    } else if lowered == "javascript"@ {
        javascript_bundle()
    } else if lowered == "rust"@ {
        rust_bundle()
    } else {
        seq![]
    }
}

pub open spec fn python_bundle() -> Seq<Seq<char>> {
    seq![
        "__pycache__/"@, "*.pyc"@, "*.pyo"@, "*.pyd"@, ".Python"@, "build/"@, "develop-eggs/"@,
        "dist/"@, "downloads/"@, "eggs/"@, ".eggs/"@, "lib/"@, "lib64/"@, "parts/"@, "sdist/"@,
        "var/"@, "wheels/"@, "share/python-wheels/"@, "*.egg-info/"@, ".installed.cfg"@,
        "*.egg"@, "MANIFEST"@, ".env"@, ".venv"@, "env/"@, "venv/"@, "ENV/"@, "VENV/"@,
        ".pytest_cache/"@, ".mypy_cache/"@, ".dmypy.json"@, "dmypy.json"@, ".coverage"@,
        "htmlcov/"@, "instance/"@, ".webassets-cache"@,
    ]
}

pub open spec fn javascript_bundle() -> Seq<Seq<char>> {
    seq![
        "node_modules/"@, "npm-debug.log*"@, "yarn-debug.log*"@, "yarn-error.log*"@, "dist/"@,
        "build/"@, ".DS_Store"@,
    ]
}

pub open spec fn rust_bundle() -> Seq<Seq<char>> {
    seq!["target"@, "Cargo.lock"@]
}

fn strings_of(names: &[&str]) -> (r: Vec<String>)
    ensures
        r@.map_values(|s: String| s@) == views_of(names@),
{
    let mut r: Vec<String> = Vec::new();
    let mut i: usize = 0;
    while i < names.len()
        invariant
            i <= names@.len(),
            r@.map_values(|s: String| s@) == views_of(names@.take(i as int)),
        decreases names@.len() - i,
    {
        r.push(String::from_str(names[i]));
        assert(views_of(names@.take(i + 1)) =~= views_of(names@.take(i as int)).push(names@[i as int]@));
        assert(r@.map_values(|s: String| s@) =~= views_of(names@.take(i as int)).push(names@[i as int]@));
        i = i + 1;
    }
    assert(names@.take(i as int) =~= names@);
    r
}

/// The default patterns of a language whose name is already lower-case.
pub fn default_patterns_for_lowered(lowered: &str) -> (r: Vec<String>)
    ensures
        r@.map_values(|s: String| s@) == language_bundle(lowered@),
{
    if same_text(lowered, "python") {
        let names = [
            "__pycache__/", "*.pyc", "*.pyo", "*.pyd", ".Python", "build/", "develop-eggs/",
            "dist/", "downloads/", "eggs/", ".eggs/", "lib/", "lib64/", "parts/", "sdist/",
            "var/", "wheels/", "share/python-wheels/", "*.egg-info/", ".installed.cfg",
            "*.egg", "MANIFEST", ".env", ".venv", "env/", "venv/", "ENV/", "VENV/",
            ".pytest_cache/", ".mypy_cache/", ".dmypy.json", "dmypy.json", ".coverage",
            "htmlcov/", "instance/", ".webassets-cache",
        ];
        let r = strings_of(&names);
        assert(views_of(names@) =~= python_bundle());
        r
    } else if same_text(lowered, "javascript") {
        let names = [
            "node_modules/", "npm-debug.log*", "yarn-debug.log*", "yarn-error.log*", "dist/",
            "build/", ".DS_Store",
        ];
        let r = strings_of(&names);
        assert(views_of(names@) =~= javascript_bundle());
        r
    } else if same_text(lowered, "rust") {
        let names = ["target", "Cargo.lock"];
        let r = strings_of(&names);
        assert(views_of(names@) =~= rust_bundle());
        r
    } else {
        let r: Vec<String> = Vec::new();
        assert(r@.map_values(|s: String| s@) =~= seq![]);
        r
    }
}

/// The default patterns of a language hint, matched without regard to case;
/// unknown languages bring none.
pub fn get_default_ignore_patterns_for_ignore(language: &str) -> (r: Vec<String>)
    ensures
        r@.map_values(|s: String| s@) == language_bundle(lower_of(language@)),
{
    let lowered = lowercase(language);
    default_patterns_for_lowered(lowered.as_str())
}

/// The patterns of a VCS ignore file: its non-blank lines that are not comments,
/// trimmed.
pub open spec fn vcs_patterns_of(ls: Seq<Seq<char>>) -> Seq<Seq<char>>
    decreases ls.len(),
{
    if ls.len() == 0 {
        seq![]
    } else {
        let t = trim(ls.last());
        if t.len() > 0 && t[0] != '#' {
            vcs_patterns_of(ls.drop_last()).push(t)
        } else {
            vcs_patterns_of(ls.drop_last())
        }
    }
}

/// The patterns that a VCS ignore file holds.
pub fn vcs_ignore_patterns(text: &str) -> (r: Vec<String>)
    ensures
        r@.map_values(|s: String| s@) == vcs_patterns_of(lines(text@)),
{
    let ls = lines_of(text);
    let ghost all = lines(text@);
    let mut r: Vec<String> = Vec::new();
    let mut i: usize = 0;
    while i < ls.len()
        invariant
            i <= ls@.len(),
            string_views(ls@) == all,
            r@.map_values(|s: String| s@) == vcs_patterns_of(all.take(i as int)),
        decreases ls@.len() - i,
    {
        let v = chars_of(ls[i].as_str());
        let n = v.len();
        assert(v@.subrange(0, n as int) =~= v@);
        let (a, b) = trim_bounds(&v, 0, n);
        assert(all.take(i + 1).drop_last() =~= all.take(i as int));
        assert(all.take(i + 1).last() == ls@[i as int]@);
        if a < b && v[a] != '#' {
            let t = string_of_range(&v, a, b);
            r.push(t);
            assert(r@.map_values(|s: String| s@) =~= vcs_patterns_of(all.take(i as int)).push(
                trim(ls@[i as int]@),
            ));
        }
        i = i + 1;
    }
    assert(all.take(i as int) =~= all);
    r
}

/// The rules that every run holds: the output file, `.git`, the config file and the
/// VCS ignore file.
pub open spec fn always_on_patterns(output: Seq<char>) -> Seq<Seq<char>> {
    seq![output, ".git"@, "prmpt.yaml"@, ".gitignore"@]
}

/// The patterns a run asks for besides the always-on ones: its own, its language's
/// and, when the flag allows it, those of the VCS ignore file.
pub open spec fn requested_patterns(c: Config, vcs_text: Option<Seq<char>>) -> Seq<Seq<char>> {
    let explicit = match c.ignore {
        Some(v) => v@.map_values(|s: String| s@),
        None => seq![],
    };
    let defaults = match c.language {
        Some(l) => language_bundle(lower_of(l@)),
        None => seq![],
    };
    let vcs = match vcs_text {
        Some(t) => if respects_vcs_ignore(c) {
            vcs_patterns_of(lines(t))
        } else {
            seq![]
        },
        None => seq![],
    };
    explicit + defaults + vcs
}

pub open spec fn opt_str_view(o: Option<&str>) -> Option<Seq<char>> {
    match o {
        Some(s) => Some(s@),
        None => None,
    }
}

/// The run's own ignore patterns.
pub open spec fn explicit_list(c: Config) -> Seq<String> {
    match c.ignore {
        Some(v) => v@,
        None => seq![],
    }
}

/// The rule set of one run.
pub struct IgnoreResolver {
    pub rules: Vec<IgnoreRule>,
}

impl IgnoreResolver {
    /// Whether some rule excludes `path`.
    pub open spec fn ignores(&self, path: Seq<char>) -> bool {
        any_rule_matches(patterns_of(self.rules@), path)
    }

    /// Whether the relative path `path` is left out of the run.
    pub fn is_ignored(&self, path: &str) -> (r: bool)
        ensures
            r == self.ignores(path@),
    {
        let mut i: usize = 0;
        while i < self.rules.len()
            invariant
                i <= self.rules@.len(),
                forall|j: int|
                    0 <= j < i ==> !rule_matches(#[trigger] patterns_of(self.rules@)[j], path@),
            decreases self.rules@.len() - i,
        {
            if rule_matches_path(self.rules[i].pattern.as_str(), path) {
                assert(patterns_of(self.rules@)[i as int] == self.rules@[i as int].pattern@);
                return true;
            }
            assert(patterns_of(self.rules@)[i as int] == self.rules@[i as int].pattern@);
            i = i + 1;
        }
        false
    }

    fn add_checked(
        &mut self,
        dropped: &mut Vec<String>,
        patterns: &Vec<String>,
        origin: RuleOrigin,
    )
        ensures
            patterns_of(final(self).rules@) == patterns_of(old(self).rules@) + patterns_of_kept(
                dropped_view(patterns@),
            ),
            dropped_view(final(dropped)@) == dropped_view(old(dropped)@) + patterns_of_malformed(
                dropped_view(patterns@),
            ),
    {
        let mut i: usize = 0;
        let ghost r0 = patterns_of(self.rules@);
        let ghost d0 = dropped_view(dropped@);
        while i < patterns.len()
            invariant
                i <= patterns@.len(),
                patterns_of(self.rules@) == r0 + patterns_of_kept(
                    dropped_view(patterns@.take(i as int)),
                ),
                dropped_view(dropped@) == d0 + patterns_of_malformed(
                    dropped_view(patterns@.take(i as int)),
                ),
            decreases patterns@.len() - i,
        {
            let p = &patterns[i];
            let ghost pre = dropped_view(patterns@.take(i as int));
            let ghost next = dropped_view(patterns@.take(i + 1));
            assert(next.drop_last() =~= pre);
            assert(next.last() == p@);
            let ghost rules_before = self.rules@;
            let ghost dropped_before = dropped@;
            if glob_valid(p.as_str()) {
                let q = p.as_str().to_owned();
                self.rules.push(IgnoreRule { pattern: q, origin });
                assert(patterns_of_kept(next) == patterns_of_kept(pre).push(p@));
                assert(patterns_of_malformed(next) == patterns_of_malformed(pre));
                assert(patterns_of(self.rules@) =~= patterns_of(rules_before).push(p@));
                assert(patterns_of(self.rules@) =~= r0 + patterns_of_kept(next));
                assert(dropped@ == dropped_before);
            } else {
                let q = p.as_str().to_owned();
                dropped.push(q);
                assert(patterns_of_kept(next) == patterns_of_kept(pre));
                assert(patterns_of_malformed(next) == patterns_of_malformed(pre).push(p@));
                assert(dropped_view(dropped@) =~= dropped_view(dropped_before).push(p@));
                assert(dropped_view(dropped@) =~= d0 + patterns_of_malformed(next));
                assert(self.rules@ == rules_before);
            }
            i = i + 1;
        }
        assert(patterns@.take(i as int) =~= patterns@);
    }

    /// The rule set of a run: the always-on rules, then the run's own patterns, its
    /// language's and, when the flag allows it, those of the VCS ignore file's text.
    /// A pattern that does not compile is left out and returned in the second place.
    pub fn for_config(config: &Config, vcs_ignore_text: Option<&str>) -> (r: (
        IgnoreResolver,
        Vec<String>,
    ))
        ensures
            patterns_of(r.0.rules@) == always_on_patterns(output_name(*config)) + patterns_of_kept(
                requested_patterns(*config, opt_str_view(vcs_ignore_text)),
            ),
            dropped_view(r.1@) == patterns_of_malformed(
                requested_patterns(*config, opt_str_view(vcs_ignore_text)),
            ),
    {
        let mut res = IgnoreResolver { rules: Vec::new() };
        let out = config.output_name();
        res.rules.push(IgnoreRule { pattern: out, origin: RuleOrigin::AlwaysOn });
        res.rules.push(IgnoreRule { pattern: String::from_str(".git"), origin: RuleOrigin::AlwaysOn });
        res.rules.push(
            IgnoreRule { pattern: String::from_str("prmpt.yaml"), origin: RuleOrigin::AlwaysOn },
        );
        res.rules.push(
            IgnoreRule { pattern: String::from_str(".gitignore"), origin: RuleOrigin::AlwaysOn },
        );
        assert(patterns_of(res.rules@) =~= always_on_patterns(output_name(*config)));
        let mut dropped: Vec<String> = Vec::new();
        assert(dropped_view(dropped@) =~= seq![]);
        let ghost ex: Seq<String> = explicit_list(*config);
        match &config.ignore {
            Some(v) => {
                res.add_checked(&mut dropped, v, RuleOrigin::Explicit);
            },
            None => {},
        }
        let ghost defs: Seq<String> = seq![];
        match &config.language {
            Some(l) => {
                let d = get_default_ignore_patterns_for_ignore(l.as_str());
                proof {
                    defs = d@;
                }
                res.add_checked(&mut dropped, &d, RuleOrigin::LanguageDefault);
            },
            None => {},
        }
        let ghost vcs: Seq<String> = seq![];
        let respect = match config.use_gitignore {
            Some(b) => b,
            None => true,
        };
        match vcs_ignore_text {
            Some(t) => {
                if respect {
                    let v = vcs_ignore_patterns(t);
                    proof {
                        vcs = v@;
                    }
                    res.add_checked(&mut dropped, &v, RuleOrigin::VcsIgnore);
                }
            },
            None => {},
        }
        proof {
            let e = dropped_view(ex);
            let f = dropped_view(defs);
            let g = dropped_view(vcs);
            assert(requested_patterns(*config, opt_str_view(vcs_ignore_text)) =~= e + f + g);
            lemma_kept_concat(e, f);
            lemma_kept_concat(e + f, g);
        }
        (res, dropped)
    }
}

/// The output file of a run is among the paths that its own rule set leaves out,
/// whatever else the run asks for: a later run never reads its earlier output back.
pub proof fn law_output_file_ignored(
    config: Config,
    vcs_text: Option<Seq<char>>,
    resolver: IgnoreResolver,
)
    requires
        patterns_of(resolver.rules@) == always_on_patterns(output_name(config)) + patterns_of_kept(
            requested_patterns(config, vcs_text),
        ),
    ensures
        resolver.ignores(output_name(config)),
{
    let ps = patterns_of(resolver.rules@);
    assert(ps[0] == output_name(config));
    assert(rule_matches(ps[0], output_name(config)));
}

/// The views of a sequence of strings.
pub open spec fn dropped_view(v: Seq<String>) -> Seq<Seq<char>> {
    v.map_values(|s: String| s@)
}

/// The patterns of `v` that compile, in order.
pub open spec fn patterns_of_kept(v: Seq<Seq<char>>) -> Seq<Seq<char>>
    decreases v.len(),
{
    if v.len() == 0 {
        seq![]
    } else if glob_compiles(v.last()) {
        patterns_of_kept(v.drop_last()).push(v.last())
    } else {
        patterns_of_kept(v.drop_last())
    }
}

/// The patterns of `v` that do not compile, in order.
pub open spec fn patterns_of_malformed(v: Seq<Seq<char>>) -> Seq<Seq<char>>
    decreases v.len(),
{
    if v.len() == 0 {
        seq![]
    } else if !glob_compiles(v.last()) {
        patterns_of_malformed(v.drop_last()).push(v.last())
    } else {
        patterns_of_malformed(v.drop_last())
    }
}

proof fn lemma_kept_concat(a: Seq<Seq<char>>, b: Seq<Seq<char>>)
    ensures
        patterns_of_kept(a + b) == patterns_of_kept(a) + patterns_of_kept(b),
        patterns_of_malformed(a + b) == patterns_of_malformed(a) + patterns_of_malformed(b),
    decreases b.len(),
{
    if b.len() == 0 {
        assert(a + b =~= a);
        assert(patterns_of_kept(a) + seq![] =~= patterns_of_kept(a));
        assert(patterns_of_malformed(a) + seq![] =~= patterns_of_malformed(a));
    } else {
        assert((a + b).drop_last() =~= a + b.drop_last());
        assert((a + b).last() == b.last());
        lemma_kept_concat(a, b.drop_last());
        assert(patterns_of_kept(a) + patterns_of_kept(b.drop_last()).push(b.last()) =~= (
        patterns_of_kept(a) + patterns_of_kept(b.drop_last())).push(b.last()));
        assert(patterns_of_malformed(a) + patterns_of_malformed(b.drop_last()).push(b.last()) =~= (
        patterns_of_malformed(a) + patterns_of_malformed(b.drop_last())).push(b.last()));
    }
}

} // verus!
