//! The filter engine: an ordered list of include/exclude patterns evaluated
//! against separator-normalised paths, first match deciding.  Patterns use
//! `*` (any run within a segment), `?` (one character within a segment) and
//! `**` (any run across segments); a trailing `/` names a directory and all
//! its descendants; a leading `/` anchors at the tree root.

use vstd::prelude::*;
use vstd::string::{StrSliceExecFns, StringExecFns};
use crate::error::RsyncError;

verus! {

/// Whether a matching rule keeps or drops the entry.
#[derive(Debug, Clone, Copy, PartialEq, Eq, Structural)]
pub enum PatternType {
    Include,
    Exclude,
}

/// How the pattern is applied to the path.
#[derive(Debug, Clone, Copy, PartialEq, Eq, Structural)]
pub enum MatchType {
    /// A glob matched against trailing path segments.
    Wildcard,
    /// A directory name: matches the directory and every descendant.
    Directory,
    /// A glob anchored at the tree root.
    Absolute,
}

/// Glob matching: `*` matches any run without `/`, `?` one character that
/// is not `/`, `**` any run including separators; anything else matches
/// itself.
pub open spec fn glob_match(p: Seq<char>, t: Seq<char>) -> bool
    decreases p.len() + t.len(),
{
    if p.len() == 0 {
        t.len() == 0
    } else if p[0] == '*' {
        if p.len() >= 2 && p[1] == '*' {
            glob_match(p.skip(2), t) || (t.len() > 0 && glob_match(p, t.drop_first()))
        } else {
            glob_match(p.drop_first(), t) || (t.len() > 0 && t[0] != '/' && glob_match(
                p, t.drop_first()))
        }
    } else if p[0] == '?' {
        t.len() > 0 && t[0] != '/' && glob_match(p.drop_first(), t.drop_first())
    } else {
        t.len() > 0 && t[0] == p[0] && glob_match(p.drop_first(), t.drop_first())
    }
}

/// `i` sits at the start of a path segment.
pub open spec fn segment_boundary(path: Seq<char>, i: int) -> bool {
    0 <= i <= path.len() && (i == 0 || path[i - 1] == '/')
}

/// The path names the directory `dir` or something beneath it, starting at
/// position `i`.
pub open spec fn dir_match_at(dir: Seq<char>, path: Seq<char>, i: int) -> bool {
    &&& segment_boundary(path, i)
    &&& {
        let rest = path.skip(i);
        rest == dir || (rest.len() > dir.len() && rest.take(dir.len() as int) == dir
            && rest[dir.len() as int] == '/')
    }
}

/// Whether one parsed pattern matches a path.
pub open spec fn pattern_matches_spec(
    normalized: Seq<char>,
    match_type: MatchType,
    anchored: bool,
    path: Seq<char>,
) -> bool {
    match match_type {
        MatchType::Absolute => glob_match(normalized, path),
        MatchType::Wildcard => exists|i: int|
            segment_boundary(path, i) && glob_match(normalized, #[trigger] path.skip(i)),
        MatchType::Directory => if anchored {
            dir_match_at(normalized, path, 0)
        } else {
            exists|i: int| #[trigger] dir_match_at(normalized, path, i)
        },
    }
}

/// One ordered filter rule.
#[derive(Debug, Clone)]
pub struct FilterPattern {
    /// The pattern as given.
    pub pattern: String,
    /// Keep or drop on match.
    pub pattern_type: PatternType,
    /// How the pattern applies.
    pub match_type: MatchType,
    /// Whether the pattern was anchored at the root with a leading `/`.
    pub anchored: bool,
    /// The pattern with its anchor and directory marks stripped.
    pub normalized: String,
}

/// Whether a rule matches a path.
pub open spec fn rule_matches(r: FilterPattern, path: Seq<char>) -> bool {
    pattern_matches_spec(r.normalized@, r.match_type, r.anchored, path)
}

/// First match wins; no match keeps the entry.
pub open spec fn filter_decision(rules: Seq<FilterPattern>, path: Seq<char>) -> bool
    decreases rules.len(),
{
    if rules.len() == 0 {
        true
    } else if rule_matches(rules[0], path) {
        rules[0].pattern_type is Include
    } else {
        filter_decision(rules.drop_first(), path)
    }
}

/// `p` is the parse of `pattern` with the given polarity: a trailing `/`
/// marks a directory rule, a leading `/` anchors at the root, anything else
/// is a floating glob.
pub open spec fn pattern_parsed(
    p: FilterPattern,
    pattern: Seq<char>,
    pattern_type: PatternType,
) -> bool {
    &&& p.pattern@ == pattern
    &&& p.pattern_type == pattern_type
    &&& {
        let n = pattern.len();
        if n > 0 && pattern[n - 1] == '/' {
            p.match_type is Directory && p.anchored == (pattern[0] == '/')
                && p.normalized@ == (if pattern[0] == '/' && n >= 2 {
                    pattern.subrange(1, n - 1)
                } else {
                    pattern.subrange(0, n - 1)
                })
        } else if n > 0 && pattern[0] == '/' {
            p.match_type is Absolute && p.anchored
                && p.normalized@ == pattern.subrange(1, n as int)
        } else {
            p.match_type is Wildcard && !p.anchored && p.normalized@ == pattern
        }
    }
}

/// A rule-file line takes part when it is neither blank nor a `#` comment.
pub open spec fn usable_line(line: Seq<char>) -> bool {
    line.len() > 0 && line[0] != '#'
}

/// The rule lines of a file, in order, comments and blanks dropped.
pub open spec fn usable_lines(lines: Seq<String>) -> Seq<String>
    decreases lines.len(),
{
    if lines.len() == 0 {
        Seq::empty()
    } else {
        (if usable_line(lines[0]@) {
            seq![lines[0]]
        } else {
            Seq::empty()
        }) + usable_lines(lines.drop_first())
    }
}

impl FilterPattern {
    /// Parses one pattern.
    pub fn new(pattern: &str, pattern_type: PatternType) -> (r: Result<Self, RsyncError>)
        ensures
            r matches Ok(p) && pattern_parsed(p, pattern@, pattern_type),
    {
        let n = pattern.unicode_len();
        let (match_type, anchored, normalized): (MatchType, bool, String) =
            if n > 0 && pattern.get_char(n - 1) == '/' {
                let anchored = pattern.get_char(0) == '/';
                if anchored && n >= 2 {
                    (MatchType::Directory, true,
                        String::from_str(pattern.substring_char(1, n - 1)))
                } else {
                    (MatchType::Directory, anchored,
                        String::from_str(pattern.substring_char(0, n - 1)))
                }
            } else if n > 0 && pattern.get_char(0) == '/' {
                (MatchType::Absolute, true, String::from_str(pattern.substring_char(1, n)))
            } else {
                (MatchType::Wildcard, false, String::from_str(pattern))
            };
        Ok(FilterPattern {
            pattern: pattern.to_owned(),
            pattern_type,
            match_type,
            anchored,
            normalized,
        })
    }

    /// Whether this rule matches the given path.
    pub fn matches(&self, path: &str) -> (r: bool)
        ensures
            r == rule_matches(*self, path@),
    {
        match self.match_type {
            MatchType::Absolute => glob_match_exec(self.normalized.as_str(), path),
            MatchType::Wildcard => {
                let n = path.unicode_len();
                let mut i: usize = 0;
                proof {
                    assert(self.normalized@.skip(0) =~= self.normalized@);
                }
                // try every segment boundary inside the path
                while i < n
                    invariant
                        self.match_type is Wildcard,
                        n == path@.len(),
                        0 <= i <= n,
                        forall|j: int| segment_boundary(path@, j) && j < i
                            ==> !glob_match(self.normalized@, #[trigger] path@.skip(j)),
                    decreases n - i,
                {
                    proof {
                        assert(self.normalized@.skip(0) =~= self.normalized@);
                    }
                    let at_boundary = i == 0 || path.get_char(i - 1) == '/';
                    if at_boundary {
                        if glob_match_exec_at(self.normalized.as_str(), 0, path, i) {
                            return true;
                        }
                    }
                    i = i + 1;
                }
                // the position just past the path is a boundary after a
                // trailing separator
                let end_boundary = n == 0 || path.get_char(n - 1) == '/';
                if end_boundary {
                    if glob_match_exec_at(self.normalized.as_str(), 0, path, n) {
                        return true;
                    }
                }
                proof {
                    assert forall|j: int| segment_boundary(path@, j) implies !glob_match(
                        self.normalized@, #[trigger] path@.skip(j)) by {
                        assert(j <= n);
                    }
                }
                false
            }
            MatchType::Directory => {
                if self.anchored {
                    dir_match_exec(self.normalized.as_str(), path, 0)
                } else {
                    let n = path.unicode_len();
                    let mut i: usize = 0;
                    while i < n
                        invariant
                            self.match_type is Directory,
                            !self.anchored,
                            n == path@.len(),
                            0 <= i <= n,
                            forall|j: int| 0 <= j < i
                                ==> !dir_match_at(self.normalized@, path@, j),
                        decreases n - i,
                    {
                        if dir_match_exec(self.normalized.as_str(), path, i) {
                            return true;
                        }
                        i = i + 1;
                    }
                    if dir_match_exec(self.normalized.as_str(), path, n) {
                        return true;
                    }
                    proof {
                        assert forall|j: int| !dir_match_at(
                            self.normalized@, path@, j) by {
                            if segment_boundary(path@, j) {
                                assert(0 <= j <= n);
                            }
                        }
                    }
                    false
                }
            }
        }
    }

    /// Whether the rule names a directory.
    pub fn is_directory_only(&self) -> (r: bool)
        ensures
            r == (self.match_type is Directory),
    {
        self.match_type == MatchType::Directory
    }
}

/// Glob matching over the tails of `p` and `t` starting at `pi` and `ti`.
fn glob_match_exec_at(p: &str, pi: usize, t: &str, ti: usize) -> (r: bool)
    requires
        pi <= p@.len(),
        ti <= t@.len(),
    ensures
        r == glob_match(p@.skip(pi as int), t@.skip(ti as int)),
    decreases p@.len() - pi + (t@.len() - ti),
{
    let pn = p.unicode_len();
    let tn = t.unicode_len();
    proof {
        assert(p@.skip(pi as int).len() == pn - pi);
        assert(t@.skip(ti as int).len() == tn - ti);
        if pi < pn {
            assert(p@.skip(pi as int)[0] == p@[pi as int]);
        }
        if ti < tn {
            assert(t@.skip(ti as int)[0] == t@[ti as int]);
        }
        if pi < pn {
            assert(p@.skip(pi as int).drop_first() =~= p@.skip(pi + 1));
            if pi + 1 < pn {
                assert(p@.skip(pi as int)[1] == p@[pi + 1]);
                assert(p@.skip(pi as int).skip(2) =~= p@.skip(pi + 2));
            }
        }
        if ti < tn {
            assert(t@.skip(ti as int).drop_first() =~= t@.skip(ti + 1));
        }
    }
    if pi == pn {
        return ti == tn;
    }
    let pc = p.get_char(pi);
    if pc == '*' {
        if pi + 1 < pn && p.get_char(pi + 1) == '*' {
            if glob_match_exec_at(p, pi + 2, t, ti) {
                return true;
            }
            if ti < tn {
                return glob_match_exec_at(p, pi, t, ti + 1);
            }
            return false;
        }
        if glob_match_exec_at(p, pi + 1, t, ti) {
            return true;
        }
        if ti < tn && t.get_char(ti) != '/' {
            return glob_match_exec_at(p, pi, t, ti + 1);
        }
        return false;
    }
    if pc == '?' {
        if ti < tn && t.get_char(ti) != '/' {
            return glob_match_exec_at(p, pi + 1, t, ti + 1);
        }
        return false;
    }
    if ti < tn && t.get_char(ti) == pc {
        return glob_match_exec_at(p, pi + 1, t, ti + 1);
    }
    false
}

/// Whole-string glob matching.
pub fn glob_match_exec(p: &str, t: &str) -> (r: bool)
    ensures
        r == glob_match(p@, t@),
{
    proof {
        assert(p@.skip(0) =~= p@);
        assert(t@.skip(0) =~= t@);
    }
    glob_match_exec_at(p, 0, t, 0)
}

/// Whether `path[i..]` names directory `dir` or a descendant of it.
fn dir_match_exec(dir: &str, path: &str, i: usize) -> (r: bool)
    requires
        i <= path@.len(),
    ensures
        r == dir_match_at(dir@, path@, i as int),
{
    let at_boundary = i == 0 || path.get_char(i - 1) == '/';
    if !at_boundary {
        return false;
    }
    let n = path.unicode_len();
    let dn = dir.unicode_len();
    let rest_len = n - i;
    proof {
        assert(path@.skip(i as int).len() == n - i);
    }
    if rest_len == dn {
        let r = crate::text::str_eq(path.substring_char(i, n), dir);
        proof {
            assert(path@.subrange(i as int, n as int) =~= path@.skip(i as int));
        }
        r
    } else if rest_len > dn {
        let head = path.substring_char(i, i + dn);
        proof {
            assert(path@.subrange(i as int, i + dn as int)
                =~= path@.skip(i as int).take(dn as int));
            assert(path@.skip(i as int)[dn as int] == path@[i + dn]);
        }
        crate::text::str_eq(head, dir) && path.get_char(i + dn) == '/'
    } else {
        false
    }
}

/// The ordered rule list.
#[derive(Debug)]
pub struct FilterEngine {
    patterns: Vec<FilterPattern>,
}

impl FilterEngine {
    /// The rules, in order.
    pub closed spec fn rules(&self) -> Seq<FilterPattern> {
        self.patterns@
    }

    pub fn new() -> (r: Self)
        ensures
            r.rules() == Seq::<FilterPattern>::empty(),
    {
        Self { patterns: Vec::new() }
    }

    /// Appends an exclude rule.
    pub fn add_exclude(&mut self, pattern: &str) -> (r: Result<(), RsyncError>)
        ensures
            r is Ok,
            final(self).rules().len() == old(self).rules().len() + 1,
            final(self).rules().drop_last() == old(self).rules(),
            final(self).rules().last().pattern_type is Exclude,
            final(self).rules().last().pattern@ == pattern@,
    {
        let filter = FilterPattern::new(pattern, PatternType::Exclude)?;
        self.patterns.push(filter);
        proof {
            assert(self.patterns@.drop_last() =~= old(self).patterns@);
        }
        Ok(())
    }

    /// Appends an include rule.
    pub fn add_include(&mut self, pattern: &str) -> (r: Result<(), RsyncError>)
        ensures
            r is Ok,
            final(self).rules().len() == old(self).rules().len() + 1,
            final(self).rules().drop_last() == old(self).rules(),
            final(self).rules().last().pattern_type is Include,
            final(self).rules().last().pattern@ == pattern@,
    {
        let filter = FilterPattern::new(pattern, PatternType::Include)?;
        self.patterns.push(filter);
        proof {
            assert(self.patterns@.drop_last() =~= old(self).patterns@);
        }
        Ok(())
    }

    /// Appends one rule per usable line of a rule file, in line order:
    /// blank lines and `#` comments are skipped, every other line is parsed
    /// with the given polarity.
    pub fn add_pattern_lines(
        &mut self,
        lines: &Vec<String>,
        pattern_type: PatternType,
    ) -> (r: Result<(), RsyncError>)
        ensures
            r is Ok,
            final(self).rules().len() == old(self).rules().len()
                + usable_lines(lines@).len(),
            final(self).rules().take(old(self).rules().len() as int) == old(self).rules(),
            forall|k: int| 0 <= k < usable_lines(lines@).len() ==> pattern_parsed(
                #[trigger] final(self).rules()[old(self).rules().len() + k],
                usable_lines(lines@)[k]@, pattern_type),
    {
        let ghost base = self.patterns@;
        let n = lines.len();
        let mut i: usize = 0;
        let ghost mut done: Seq<String> = Seq::empty();
        proof {
            assert(lines@.skip(0) =~= lines@);
            assert(done + usable_lines(lines@.skip(0)) =~= usable_lines(lines@));
            assert(self.patterns@.take(base.len() as int) =~= base);
        }
        while i < n
            invariant
                n == lines@.len(),
                0 <= i <= n,
                base == old(self).patterns@,
                done + usable_lines(lines@.skip(i as int)) == usable_lines(lines@),
                self.patterns@.len() == base.len() + done.len(),
                self.patterns@.take(base.len() as int) == base,
                forall|k: int| 0 <= k < done.len() ==> pattern_parsed(
                    #[trigger] self.patterns@[base.len() + k], done[k]@, pattern_type),
            decreases n - i,
        {
            proof {
                assert(lines@.skip(i as int)[0] == lines@[i as int]);
                assert(lines@.skip(i as int).drop_first() =~= lines@.skip(i + 1));
            }
            let line = &lines[i];
            let ln = line.as_str().unicode_len();
            if ln > 0 && !(line.as_str().get_char(0) == '#') {
                let filter = FilterPattern::new(line.as_str(), pattern_type)?;
                proof {
                    assert(usable_line(lines@[i as int]@));
                    assert(usable_lines(lines@.skip(i as int))
                        =~= seq![lines@[i as int]] + usable_lines(lines@.skip(i + 1)));
                }
                self.patterns.push(filter);
                proof {
                    assert(self.patterns@.take(base.len() as int)
                        =~= self.patterns@.drop_last().take(base.len() as int));
                    done = done.push(lines@[i as int]);
                    assert(done + usable_lines(lines@.skip(i + 1))
                        =~= done.drop_last() + usable_lines(lines@.skip(i as int)));
                }
            } else {
                proof {
                    assert(!usable_line(lines@[i as int]@));
                    assert(usable_lines(lines@.skip(i as int))
                        =~= usable_lines(lines@.skip(i + 1)));
                }
            }
            i = i + 1;
        }
        proof {
            assert(lines@.skip(n as int) =~= Seq::<String>::empty());
            assert(usable_lines(Seq::<String>::empty()) =~= Seq::<String>::empty());
            assert(done =~= usable_lines(lines@));
        }
        Ok(())
    }

    /// Walks the rules in order; the first match decides, and a path no
    /// rule matches is kept.
    pub fn should_include(&self, path: &str) -> (r: bool)
        ensures
            r == filter_decision(self.rules(), path@),
    {
        let n = self.patterns.len();
        let mut i: usize = 0;
        proof {
            assert(self.rules().skip(0) =~= self.rules());
        }
        while i < n
            invariant
                n == self.patterns@.len(),
                0 <= i <= n,
                filter_decision(self.rules(), path@) == filter_decision(
                    self.rules().skip(i as int), path@),
            decreases n - i,
        {
            proof {
                assert(self.rules().skip(i as int)[0] == self.rules()[i as int]);
                assert(self.rules().skip(i as int).drop_first() =~= self.rules().skip(i + 1));
            }
            let pattern = &self.patterns[i];
            if pattern.matches(path) {
                return match pattern.pattern_type {
                    PatternType::Include => true,
                    PatternType::Exclude => false,
                };
            }
            i = i + 1;
        }
        proof {
            assert(self.rules().skip(n as int) =~= Seq::<FilterPattern>::empty());
        }
        true
    }

    /// How many rules are loaded.
    pub fn pattern_count(&self) -> (r: usize)
        ensures
            r == self.rules().len(),
    {
        self.patterns.len()
    }
}

impl Default for FilterEngine {
    fn default() -> (r: Self)
        ensures
            r.rules() == Seq::<FilterPattern>::empty(),
    {
        FilterEngine::new()
    }
}

/// No matching rule keeps the path.
proof fn lemma_decision_no_match(rules: Seq<FilterPattern>, path: Seq<char>)
    requires
        forall|x: FilterPattern| rules.contains(x) ==> !rule_matches(x, path),
    ensures
        filter_decision(rules, path) == true,
    decreases rules.len(),
{
    if rules.len() > 0 {
        assert(rules.contains(rules[0]));
        assert(forall|x: FilterPattern| rules.drop_first().contains(x) ==> rules.contains(x));
        lemma_decision_no_match(rules.drop_first(), path);
    }
}

/// When every matching rule agrees in polarity, the decision is that
/// polarity.
proof fn lemma_decision_agreeing(rules: Seq<FilterPattern>, path: Seq<char>, m: FilterPattern)
    requires
        rules.contains(m),
        rule_matches(m, path),
        forall|x: FilterPattern| rules.contains(x) && rule_matches(x, path)
            ==> x.pattern_type == m.pattern_type,
    ensures
        filter_decision(rules, path) == (m.pattern_type is Include),
    decreases rules.len(),
{
    assert(rules.len() > 0);
    if rule_matches(rules[0], path) {
        assert(rules.contains(rules[0]));
    } else {
        assert(rules[0] != m);
        let i = choose|i: int| 0 <= i < rules.len() && rules[i] == m;
        assert(rules.drop_first()[i - 1] == m);
        assert(rules.drop_first().contains(m));
        assert(forall|x: FilterPattern| rules.drop_first().contains(x) ==> rules.contains(x));
        lemma_decision_agreeing(rules.drop_first(), path, m);
    }
}

/// Filter determinism under reordering: two rule lists holding the same
/// rules decide every path alike, provided no two of those rules of opposed
/// polarity both match it (in particular, whenever the rules do not overlap
/// on the path at all).
pub proof fn lemma_filter_reorder(
    r1: Seq<FilterPattern>,
    r2: Seq<FilterPattern>,
    path: Seq<char>,
)
    requires
        r1.to_multiset() == r2.to_multiset(),
        forall|a: FilterPattern, b: FilterPattern|
            r1.contains(a) && r1.contains(b) && #[trigger] rule_matches(a, path)
                && #[trigger] rule_matches(b, path) ==> a.pattern_type == b.pattern_type,
    ensures
        filter_decision(r1, path) == filter_decision(r2, path),
{
    broadcast use vstd::seq_lib::group_to_multiset_ensures;
    assert(forall|x: FilterPattern| r1.contains(x) <==> r1.to_multiset().count(x) > 0);
    assert(forall|x: FilterPattern| r2.contains(x) <==> r2.to_multiset().count(x) > 0);
    assert(forall|x: FilterPattern| r1.contains(x) <==> r2.contains(x));
    if exists|x: FilterPattern| r1.contains(x) && rule_matches(x, path) {
        let m = choose|x: FilterPattern| r1.contains(x) && rule_matches(x, path);
        lemma_decision_agreeing(r1, path, m);
        lemma_decision_agreeing(r2, path, m);
    } else {
        lemma_decision_no_match(r1, path);
        lemma_decision_no_match(r2, path);
    }
}

} // verus!
