use vstd::prelude::*;
use vstd::string::StringExecFns;

use crate::content::LineClass;
use crate::text::{push_char, views};

verus! {

/// A compiled regular expression of the regex crate, carried as it is.
#[verifier::external_type_specification]
#[verifier::external_body]
pub struct ExRegex(regex::Regex);

/// A compiled set of regular expressions of the regex crate, carried as it is.
#[verifier::external_type_specification]
#[verifier::external_body]
pub struct ExRegexSet(regex::RegexSet);

/// Why the regex crate could not compile an expression; mapped to a `ConfigError`.
#[verifier::external_type_specification]
#[verifier::external_body]
pub struct ExRegexError(regex::Error);

/// The groups that the regular expression `pattern` captures on `line`, by index, when it
/// matches: `None` for a group that took no part in the match.
pub uninterp spec fn regex_captures(pattern: Seq<char>, line: Seq<char>) -> Option<
    Seq<Option<Seq<char>>>,
>;

/// Whether `pattern` is a regular expression that the regex crate compiles.
pub uninterp spec fn regex_compiles(pattern: Seq<char>) -> bool;

/// The names of the capture groups of the regular expression `pattern`, group 0 first.
pub uninterp spec fn regex_group_names(pattern: Seq<char>) -> Seq<Option<Seq<char>>>;

/// Whether the regex crate compiles the regular expressions `patterns` into one set.
pub uninterp spec fn regex_set_compiles(patterns: Seq<Seq<char>>) -> bool;

/// Whether one of the regular expressions `patterns` matches `line`.
pub open spec fn any_matches(patterns: Seq<Seq<char>>, line: Seq<char>) -> bool {
    exists|k: int| 0 <= k < patterns.len() && #[trigger] regex_captures(patterns[k], line) is Some
}

/// A configuration that cannot be used.
#[derive(Debug)]
pub enum ConfigError {
    /// The counts of start and end patterns differ.
    MatchPairInvalid(usize, usize),
    /// The pattern has no capture group.
    ExpectedCaptures(String),
    /// The pattern has several capture groups and none named `M`.
    CaptureNameNotFound(String),
    /// The pattern file ends with a start pattern that has no end pattern.
    UnpairedRegexInFile(String),
    /// The pattern is not a valid regular expression.
    InvalidPattern(String),
    /// The patterns together are too large to be compiled into one set.
    InvalidPatternSet,
    /// A programs file named no program.
    NoPrograms,
}

/// Where the title of a matched line comes from.
#[derive(PartialEq, Eq, Structural, Clone, Copy, Debug)]
pub enum TitleRule {
    /// The sole capture group.
    Positional,
    /// The capture group named `M`, at this index.
    Named(usize),
}

/// The views of optional strings.
pub open spec fn opt_views(v: Seq<Option<String>>) -> Seq<Option<Seq<char>>> {
    v.map_values(|o: Option<String>| match o {
        Some(s) => Some(s@),
        None => None,
    })
}

/// The text of a pattern made to match whole lines.
pub open spec fn anchored(text: Seq<char>) -> Seq<char> {
    seq!['^', '(', '?', ':'] + text + seq![')', '$']
}

/// The name of the capture group that gives the title when there are several.
pub open spec fn title_group_name() -> Seq<char> {
    seq!['M']
}

/// Whether group `k` is the first one named `M`.
pub open spec fn first_title_group(names: Seq<Option<Seq<char>>>, k: int) -> bool {
    &&& 0 <= k < names.len()
    &&& names[k] == Some(title_group_name())
    &&& forall|i: int| 0 <= i < k ==> names[i] != Some(title_group_name())
}

/// The title rule for a pattern whose capture groups have these names, group 0 first; `None`
/// when the groups give no title.
pub open spec fn rule_for(names: Seq<Option<Seq<char>>>) -> Option<TitleRule> {
    if names.len() <= 1 {
        None
    } else if names.len() == 2 {
        Some(TitleRule::Positional)
    } else if exists|k: int| first_title_group(names, k) {
        Some(TitleRule::Named((choose|k: int| first_title_group(names, k)) as usize))
    } else {
        None
    }
}

/// The title that `rule` takes from the captured groups: the group it names, or nothing
/// when that group took no part in the match.
pub open spec fn title_of(rule: TitleRule, groups: Seq<Option<Seq<char>>>) -> Seq<char> {
    let k: int = match rule {
        TitleRule::Positional => 1,
        TitleRule::Named(i) => i as int,
    };
    if 0 <= k < groups.len() && groups[k] is Some {
        groups[k]->0
    } else {
        seq![]
    }
}

/// A regular expression that matches whole lines, with the text it was compiled from.
pub struct Pattern {
    source: String,
    re: regex::Regex,
}

/// Relies on Regex::new: compiles the expression, or says why it cannot.
#[verifier::external_body]
fn compile_regex(source: &String) -> (r: Result<regex::Regex, regex::Error>)
    ensures
        r is Ok == regex_compiles(source@),
{
    regex::Regex::new(source.as_str())
}

/// Relies on Regex::capture_names: one entry a group, group 0 first and unnamed. The
/// expression of a `Pattern` is only ever compiled from its source, in `Pattern::compile`.
#[verifier::external_body]
fn group_names(p: &Pattern) -> (r: Vec<Option<String>>)
    ensures
        opt_views(r@) == regex_group_names(p.source()),
        r@.len() >= 1,
        r@[0] is None,
{
    p.re.capture_names().map(|n| n.map(|s| s.to_string())).collect()
}

/// Relies on Regex::captures and Captures::iter: the groups of the match, by index. The
/// expression of a `Pattern` is only ever compiled from its source, in `Pattern::compile`.
#[verifier::external_body]
fn pattern_captures(p: &Pattern, line: &str) -> (r: Option<Vec<Option<String>>>)
    ensures
        match r {
            Some(g) => regex_captures(p.source(), line@) == Some(opt_views(g@)),
            None => regex_captures(p.source(), line@) is None,
        },
{
    p.re.captures(line).map(|c| c.iter().map(|m| m.map(|m| m.as_str().to_string())).collect())
}

/// Relies on RegexSet::new: compiles the expressions into one set, or says why it cannot.
#[verifier::external_body]
fn compile_set(sources: &Vec<String>) -> (r: Result<regex::RegexSet, regex::Error>)
    ensures
        r is Ok == regex_set_compiles(views(sources@)),
{
    regex::RegexSet::new(sources.iter())
}

/// Relies on RegexSet::is_match: whether one of the set's expressions matches the line,
/// which is whether that expression alone finds a match, captures included. The
/// set of a `Matchers` is only ever compiled from its sources, in `Matchers::new`.
#[verifier::external_body]
fn set_is_match(m: &Matchers, line: &str) -> (r: bool)
    ensures
        r == any_matches(views(m.set_sources@), line@),
{
    m.set.is_match(line)
}

impl Pattern {
    /// The text that the expression was compiled from.
    pub closed spec fn source(self) -> Seq<char> {
        self.source@
    }

    /// Compiles `text` as a pattern that must match a whole line.
    pub fn compile(text: &String) -> (r: Result<Pattern, ConfigError>)
        ensures
            r is Ok == regex_compiles(anchored(text@)),
            r matches Ok(p) ==> p.source() == anchored(text@),
            r matches Err(e) ==> (e matches ConfigError::InvalidPattern(t) && t@ == text@),
    {
        let mut source = String::new();
        push_char(&mut source, '^');
        push_char(&mut source, '(');
        push_char(&mut source, '?');
        push_char(&mut source, ':');
        source.append(text.as_str());
        push_char(&mut source, ')');
        push_char(&mut source, '$');
        proof {
            assert(source@ =~= anchored(text@));
        }
        match compile_regex(&source) {
            Ok(re) => Ok(Pattern { source, re }),
            Err(_) => Err(ConfigError::InvalidPattern(text.clone())),
        }
    }
}

/// The rule that gives a title for a pattern whose capture groups have the names `names`,
/// group 0 first.
pub fn title_rule(text: &String, names: &Vec<Option<String>>) -> (r: Result<TitleRule, ConfigError>)
    ensures
        names@.len() <= 1 ==> (r matches Err(ConfigError::ExpectedCaptures(t)) && t@ == text@),
        names@.len() > 1 && rule_for(opt_views(names@)) is None ==> (r matches Err(
            ConfigError::CaptureNameNotFound(t),
        ) && t@ == text@),
        rule_for(opt_views(names@)) matches Some(rule) ==> r == Ok::<TitleRule, ConfigError>(rule),
        r matches Err(e) ==> (e is ExpectedCaptures || e is CaptureNameNotFound),
{
    let ghost v = opt_views(names@);
    if names.len() <= 1 {
        return Err(ConfigError::ExpectedCaptures(text.clone()));
    }
    if names.len() == 2 {
        return Ok(TitleRule::Positional);
    }
    let mut m = String::new();
    push_char(&mut m, 'M');
    proof {
        assert(m@ =~= title_group_name());
    }
    let mut k: usize = 0;
    while k < names.len()
        invariant
            0 <= k <= names.len(),
            names@.len() > 2,
            v == opt_views(names@),
            m@ == title_group_name(),
            forall|i: int| 0 <= i < k ==> v[i] != Some(title_group_name()),
        decreases names.len() - k,
    {
        let found = match &names[k] {
            Some(n) => *n == m,
            None => false,
        };
        if found {
            proof {
                assert(v[k as int] == Some(title_group_name()));
                assert(first_title_group(v, k as int));
                assert forall|j: int| #[trigger] first_title_group(v, j) implies j == k by {
                    if j < k {
                    } else if j > k {
                        assert(v[k as int] == Some(title_group_name()));
                    }
                }
            }
            proof {
                assert((choose|j: int| first_title_group(v, j)) == k);
            }
            return Ok(TitleRule::Named(k));
        }
        k = k + 1;
    }
    proof {
        assert(!exists|j: int| first_title_group(v, j));
    }
    Err(ConfigError::CaptureNameNotFound(text.clone()))
}

/// A pattern together with the rule that takes a title from its matches.
pub struct Matcher {
    pub pattern: Pattern,
    pub title: TitleRule,
}

/// The title rule of the pattern `text` when it compiles and its groups give a title.
pub open spec fn text_rule(text: Seq<char>) -> Option<TitleRule> {
    if regex_compiles(anchored(text)) {
        rule_for(regex_group_names(anchored(text)))
    } else {
        None
    }
}

impl Matcher {
    /// Compiles `text` as a whole-line pattern and settles where its title comes from.
    pub fn new(text: &String) -> (r: Result<Matcher, ConfigError>)
        ensures
            ({
                let src = anchored(text@);
                let names = regex_group_names(src);
                &&& !regex_compiles(src) ==> (r matches Err(ConfigError::InvalidPattern(t))
                    && t@ == text@)
                &&& regex_compiles(src) && names.len() <= 1 ==> (r matches Err(
                    ConfigError::ExpectedCaptures(t),
                ) && t@ == text@)
                &&& regex_compiles(src) && names.len() > 1 && rule_for(names) is None ==> (r matches Err(
                    ConfigError::CaptureNameNotFound(t),
                ) && t@ == text@)
                &&& text_rule(text@) matches Some(rule) ==> (r matches Ok(m) && m.title == rule
                    && m.pattern.source() == src)
            }),
            r matches Ok(m) ==> m.pattern.source() == anchored(text@),
            r matches Err(e) ==> (e is InvalidPattern || e is ExpectedCaptures
                || e is CaptureNameNotFound),
            r is Ok == text_rule(text@) is Some,
    {
        let pattern = match Pattern::compile(text) {
            Ok(p) => p,
            Err(e) => return Err(e),
        };
        let names = group_names(&pattern);
        match title_rule(text, &names) {
            Ok(title) => Ok(Matcher { pattern, title }),
            Err(e) => Err(e),
        }
    }

    /// The title of `line` when the pattern matches it.
    pub fn title_of_line(&self, line: &String) -> (r: Option<String>)
        ensures
            match regex_captures(self.pattern.source(), line@) {
                Some(g) => (r matches Some(t) && t@ == title_of(self.title, g)),
                None => r is None,
            },
    {
        match pattern_captures(&self.pattern, line.as_str()) {
            None => None,
            Some(groups) => {
                let k: usize = match self.title {
                    TitleRule::Positional => 1,
                    TitleRule::Named(i) => i,
                };
                if k < groups.len() {
                    match &groups[k] {
                        Some(t) => Some(t.clone()),
                        None => Some(String::new()),
                    }
                } else {
                    Some(String::new())
                }
            },
        }
    }
}

/// A configured pair: the pattern that opens a region and the one that closes it.
pub struct MatchPair {
    pub start: Matcher,
    pub end: Matcher,
}

/// All configured pairs, in order, and the set of all their patterns.
pub struct Matchers {
    pairs: Vec<MatchPair>,
    set_sources: Vec<String>,
    set: regex::RegexSet,
}

/// What a line is, seen through the pairs from index `k` on: the first pattern that
/// matches decides, a pair's start pattern before its end pattern.
pub enum ClassView {
    Plain,
    Start(nat, Seq<char>),
    End(Seq<char>),
}

pub open spec fn class_view(c: LineClass) -> ClassView {
    match c {
        LineClass::Plain => ClassView::Plain,
        LineClass::Start { pair_id, title } => ClassView::Start(pair_id as nat, title@),
        LineClass::End { title } => ClassView::End(title@),
    }
}

/// The class of `line` under the pairs from index `k` on.
pub open spec fn first_match(pairs: Seq<MatchPair>, line: Seq<char>, k: int) -> ClassView
    decreases pairs.len() - k,
{
    if k < 0 || k >= pairs.len() {
        ClassView::Plain
    } else {
        match regex_captures(pairs[k].start.pattern.source(), line) {
            Some(g) => ClassView::Start(k as nat, title_of(pairs[k].start.title, g)),
            None => match regex_captures(pairs[k].end.pattern.source(), line) {
                Some(g) => ClassView::End(title_of(pairs[k].end.title, g)),
                None => first_match(pairs, line, k + 1),
            },
        }
    }
}

/// The sources of the patterns of `pairs`, two a pair, the start pattern first.
pub open spec fn pair_sources(pairs: Seq<MatchPair>) -> Seq<Seq<char>>
    decreases pairs.len(),
{
    if pairs.len() == 0 {
        seq![]
    } else {
        let last = pairs.last();
        pair_sources(pairs.drop_last()) + seq![last.start.pattern.source(), last.end.pattern.source()]
    }
}

/// The text of the start pattern of pair `k`: the pairs given as arguments come first,
/// then those of the pattern file, two lines a pair.
pub open spec fn start_text(starts: Seq<String>, file: Seq<String>, k: int) -> Seq<char> {
    if k < starts.len() {
        starts[k]@
    } else {
        file[2 * (k - starts.len())]@
    }
}

/// The text of the end pattern of pair `k`.
pub open spec fn end_text(ends: Seq<String>, file: Seq<String>, k: int) -> Seq<char> {
    if k < ends.len() {
        ends[k]@
    } else {
        file[2 * (k - ends.len()) + 1]@
    }
}

/// The number of pairs: those given as arguments and the complete ones of the file.
pub open spec fn pair_count(starts: Seq<String>, file: Seq<String>) -> int {
    (starts.len() + file.len() / 2) as int
}

/// The anchored texts of the patterns of the first `k` pairs, two a pair, the start
/// pattern first.
pub open spec fn config_sources_upto(
    starts: Seq<String>,
    ends: Seq<String>,
    file: Seq<String>,
    k: int,
) -> Seq<Seq<char>>
    decreases k,
{
    if k <= 0 {
        seq![]
    } else {
        config_sources_upto(starts, ends, file, k - 1) + seq![
            anchored(start_text(starts, file, k - 1)),
            anchored(end_text(ends, file, k - 1)),
        ]
    }
}

/// The anchored texts of all the patterns of a configuration, in order.
pub open spec fn config_sources(starts: Seq<String>, ends: Seq<String>, file: Seq<String>) -> Seq<
    Seq<char>,
> {
    config_sources_upto(starts, ends, file, pair_count(starts, file))
}

/// Whether `t` is the text of one of the pairs' patterns and gives no usable matcher.
pub open spec fn unusable_pattern(
    starts: Seq<String>,
    ends: Seq<String>,
    file: Seq<String>,
    t: Seq<char>,
) -> bool {
    &&& text_rule(t) is None
    &&& exists|k: int|
        0 <= k < pair_count(starts, file) && (t == #[trigger] start_text(starts, file, k) || t
            == end_text(ends, file, k))
}

/// Whether every pattern of every pair gives a usable matcher.
pub open spec fn all_usable(starts: Seq<String>, ends: Seq<String>, file: Seq<String>) -> bool {
    forall|k: int|
        0 <= k < pair_count(starts, file) ==> #[trigger] text_rule(start_text(starts, file, k)) is Some
            && text_rule(end_text(ends, file, k)) is Some
}

impl Matchers {
    /// Builds the matchers from start and end patterns paired by position, then from the
    /// lines of a pattern file, a start line and an end line a pair.
    pub fn new(starts: &Vec<String>, ends: &Vec<String>, file_lines: &Vec<String>) -> (r: Result<
        Matchers,
        ConfigError,
    >)
        ensures
            starts@.len() != ends@.len() <==> (r matches Err(ConfigError::MatchPairInvalid(s, e))
                && s == starts@.len() && e == ends@.len()),
            r matches Ok(m) ==> {
                &&& file_lines@.len() % 2 == 0
                &&& m.pairs().len() == starts@.len() + file_lines@.len() / 2
                &&& forall|k: int|
                    0 <= k < m.pairs().len() ==> #[trigger] m.pairs()[k].start.pattern.source()
                        == anchored(start_text(starts@, file_lines@, k))
                        && m.pairs()[k].end.pattern.source() == anchored(
                        end_text(ends@, file_lines@, k),
                    )
                &&& m.set_patterns() == pair_sources(m.pairs())
            },
            starts@.len() == ends@.len() && file_lines@.len() % 2 == 1 ==> r is Err,
            r matches Err(ConfigError::UnpairedRegexInFile(t)) ==> file_lines@.len() % 2 == 1
                && t@ == file_lines@.last()@,
            r matches Err(ConfigError::InvalidPattern(t)) ==> unusable_pattern(
                starts@,
                ends@,
                file_lines@,
                t@,
            ),
            r matches Err(ConfigError::ExpectedCaptures(t)) ==> unusable_pattern(
                starts@,
                ends@,
                file_lines@,
                t@,
            ),
            r matches Err(ConfigError::CaptureNameNotFound(t)) ==> unusable_pattern(
                starts@,
                ends@,
                file_lines@,
                t@,
            ),
            r matches Ok(m) ==> forall|k: int|
                0 <= k < m.pairs().len() ==> Some(#[trigger] m.pairs()[k].start.title) == text_rule(
                    start_text(starts@, file_lines@, k),
                ) && Some(m.pairs()[k].end.title) == text_rule(end_text(ends@, file_lines@, k)),
            starts@.len() == ends@.len() && all_usable(starts@, ends@, file_lines@) ==> {
                &&& file_lines@.len() % 2 == 1 ==> (r matches Err(
                    ConfigError::UnpairedRegexInFile(t),
                ) && t@ == file_lines@.last()@)
                &&& file_lines@.len() % 2 == 0 ==> (r is Ok || r matches Err(
                    ConfigError::InvalidPatternSet,
                ))
            },
            starts@.len() == ends@.len() && all_usable(starts@, ends@, file_lines@)
                && file_lines@.len() % 2 == 0 && regex_set_compiles(
                config_sources(starts@, ends@, file_lines@),
            ) ==> r is Ok,
            r matches Err(ConfigError::InvalidPatternSet) ==> starts@.len() == ends@.len()
                && all_usable(starts@, ends@, file_lines@) && file_lines@.len() % 2 == 0
                && !regex_set_compiles(config_sources(starts@, ends@, file_lines@)),
            r matches Ok(m) ==> m.wf() && m.set_patterns() == config_sources(
                starts@,
                ends@,
                file_lines@,
            ),
            r is Err ==> !(r matches Err(ConfigError::NoPrograms)),
    {
        if starts.len() != ends.len() {
            return Err(ConfigError::MatchPairInvalid(starts.len(), ends.len()));
        }
        let mut pairs: Vec<MatchPair> = Vec::new();
        let mut k: usize = 0;
        while k < starts.len()
            invariant
                starts@.len() == ends@.len(),
                0 <= k <= starts@.len(),
                pairs@.len() == k,
                forall|i: int|
                    0 <= i < k ==> #[trigger] pairs@[i].start.pattern.source() == anchored(
                        start_text(starts@, file_lines@, i),
                    ) && pairs@[i].end.pattern.source() == anchored(end_text(ends@, file_lines@, i))
                        && Some(pairs@[i].start.title) == text_rule(start_text(starts@, file_lines@, i))
                        && Some(pairs@[i].end.title) == text_rule(end_text(ends@, file_lines@, i)),
            decreases starts@.len() - k,
        {
            let start = match Matcher::new(&starts[k]) {
                Ok(m) => m,
                Err(e) => {
                    proof {
                        assert(start_text(starts@, file_lines@, k as int) == starts@[k as int]@);
                    }
                    return Err(e);
                },
            };
            let end = match Matcher::new(&ends[k]) {
                Ok(m) => m,
                Err(e) => {
                    proof {
                        assert(end_text(ends@, file_lines@, k as int) == ends@[k as int]@);
                        assert(start_text(starts@, file_lines@, k as int) == starts@[k as int]@);
                    }
                    return Err(e);
                },
            };
            pairs.push(MatchPair { start, end });
            k = k + 1;
        }
        let n = starts.len();
        let mut f: usize = 0;
        while f < file_lines.len() / 2
            invariant
                starts@.len() == ends@.len(),
                n == starts@.len(),
                0 <= f <= file_lines@.len() / 2,
                pairs@.len() == n + f,
                forall|i: int|
                    0 <= i < n + f ==> #[trigger] pairs@[i].start.pattern.source() == anchored(
                        start_text(starts@, file_lines@, i),
                    ) && pairs@[i].end.pattern.source() == anchored(end_text(ends@, file_lines@, i))
                        && Some(pairs@[i].start.title) == text_rule(start_text(starts@, file_lines@, i))
                        && Some(pairs@[i].end.title) == text_rule(end_text(ends@, file_lines@, i)),
            decreases file_lines@.len() / 2 - f,
        {
            proof {
                assert(2 * ((n + f) - n) == 2 * f);
                assert(start_text(starts@, file_lines@, (n + f) as int) == file_lines@[2 * f as int]@);
                assert(end_text(ends@, file_lines@, (n + f) as int) == file_lines@[2 * f + 1]@);
            }
            let start = match Matcher::new(&file_lines[2 * f]) {
                Ok(m) => m,
                Err(e) => return Err(e),
            };
            let end = match Matcher::new(&file_lines[2 * f + 1]) {
                Ok(m) => m,
                Err(e) => return Err(e),
            };
            pairs.push(MatchPair { start, end });
            proof {
                assert(2 * ((n + f) - n) == 2 * f);
            }
            f = f + 1;
        }
        if file_lines.len() % 2 == 1 {
            return Err(ConfigError::UnpairedRegexInFile(file_lines[file_lines.len() - 1].clone()));
        }
        let mut set_sources: Vec<String> = Vec::new();
        let mut k: usize = 0;
        proof {
            assert(pairs@.take(0) =~= Seq::<MatchPair>::empty());
            assert(views(set_sources@) =~= Seq::<Seq<char>>::empty());
        }
        while k < pairs.len()
            invariant
                0 <= k <= pairs@.len(),
                file_lines@.len() % 2 == 0,
                pairs@.len() == starts@.len() + file_lines@.len() / 2,
                forall|i: int|
                    0 <= i < pairs@.len() ==> #[trigger] pairs@[i].start.pattern.source() == anchored(
                        start_text(starts@, file_lines@, i),
                    ) && pairs@[i].end.pattern.source() == anchored(end_text(ends@, file_lines@, i))
                        && Some(pairs@[i].start.title) == text_rule(start_text(starts@, file_lines@, i))
                        && Some(pairs@[i].end.title) == text_rule(end_text(ends@, file_lines@, i)),
                views(set_sources@) == pair_sources(pairs@.take(k as int)),
                views(set_sources@) == config_sources_upto(starts@, ends@, file_lines@, k as int),
            decreases pairs@.len() - k,
        {
            set_sources.push(pairs[k].start.pattern.source.clone());
            set_sources.push(pairs[k].end.pattern.source.clone());
            proof {
                assert(pairs@.take(k + 1).drop_last() =~= pairs@.take(k as int));
                assert(views(set_sources@) =~= pair_sources(pairs@.take(k as int)) + seq![
                    pairs@[k as int].start.pattern.source(),
                    pairs@[k as int].end.pattern.source(),
                ]);
            }
            k = k + 1;
        }
        proof {
            assert(pairs@.take(pairs@.len() as int) =~= pairs@);
            assert forall|k: int| 0 <= k < pair_count(starts@, file_lines@) implies #[trigger] text_rule(
                start_text(starts@, file_lines@, k),
            ) is Some && text_rule(end_text(ends@, file_lines@, k)) is Some by {
                assert(pairs@[k].start.pattern.source() == anchored(start_text(starts@, file_lines@, k)));
            }
        }
        let set = match compile_set(&set_sources) {
            Ok(s) => s,
            Err(_) => return Err(ConfigError::InvalidPatternSet),
        };
        proof {
            assert forall|k: int| 0 <= k < pairs@.len() implies Some(#[trigger] pairs@[k].start.title)
                == text_rule(start_text(starts@, file_lines@, k)) && Some(pairs@[k].end.title)
                == text_rule(end_text(ends@, file_lines@, k)) by {
                assert(pairs@[k].start.pattern.source() == anchored(start_text(starts@, file_lines@, k)));
            }
        }
        Ok(Matchers { pairs, set_sources, set })
    }

    pub closed spec fn pairs(self) -> Seq<MatchPair> {
        self.pairs@
    }

    pub closed spec fn set_patterns(self) -> Seq<Seq<char>> {
        views(self.set_sources@)
    }

    /// The set holds the patterns of the pairs, in order.
    pub open spec fn wf(self) -> bool {
        self.set_patterns() == pair_sources(self.pairs())
    }

    /// The class of `line`: as the first matching pattern says, plain when none matches.
    pub open spec fn class_of(self, line: Seq<char>) -> ClassView {
        first_match(self.pairs(), line, 0)
    }

    /// Decides what `line` is: the start of a region, its end, or plain text.
    pub fn classify(&self, line: &String) -> (r: LineClass)
        requires
            self.wf(),
        ensures
            class_view(r) == self.class_of(line@),
    {
        if !set_is_match(self, line.as_str()) {
            proof {
                lemma_pair_sources_index(self.pairs@);
                assert forall|k: int| 0 <= k < self.pairs@.len() implies regex_captures(
                    #[trigger] self.pairs@[k].start.pattern.source(),
                    line@,
                ) is None && regex_captures(self.pairs@[k].end.pattern.source(), line@) is None by {
                    assert(self.set_patterns()[2 * k] == self.pairs@[k].start.pattern.source());
                    assert(self.set_patterns()[2 * k + 1] == self.pairs@[k].end.pattern.source());
                }
                lemma_first_match_plain(self.pairs@, line@, 0);
            }
            return LineClass::Plain;
        }
        let mut k: usize = 0;
        while k < self.pairs.len()
            invariant
                0 <= k <= self.pairs@.len(),
                first_match(self.pairs@, line@, 0) == first_match(self.pairs@, line@, k as int),
            decreases self.pairs@.len() - k,
        {
            let pair = &self.pairs[k];
            match pair.start.title_of_line(line) {
                Some(title) => {
                    proof {
                        assert(first_match(self.pairs@, line@, k as int) == ClassView::Start(
                            k as nat,
                            title@,
                        ));
                    }
                    return LineClass::Start { pair_id: k, title };
                },
                None => {},
            }
            match pair.end.title_of_line(line) {
                Some(title) => {
                    proof {
                        assert(first_match(self.pairs@, line@, k as int) == ClassView::End(title@));
                    }
                    return LineClass::End { title };
                },
                None => {},
            }
            k = k + 1;
        }
        LineClass::Plain
    }
}

/// The sources of the pairs' patterns stand two a pair, in the order of the pairs.
proof fn lemma_pair_sources_index(pairs: Seq<MatchPair>)
    ensures
        pair_sources(pairs).len() == 2 * pairs.len(),
        forall|k: int|
            0 <= k < pairs.len() ==> pair_sources(pairs)[2 * k] == (#[trigger] pairs[k]).start.pattern.source()
                && pair_sources(pairs)[2 * k + 1] == pairs[k].end.pattern.source(),
    decreases pairs.len(),
{
    if pairs.len() > 0 {
        let p = pairs.drop_last();
        lemma_pair_sources_index(p);
        assert forall|k: int| 0 <= k < pairs.len() implies pair_sources(pairs)[2 * k]
            == (#[trigger] pairs[k]).start.pattern.source() && pair_sources(pairs)[2 * k + 1]
            == pairs[k].end.pattern.source() by {
            if k < p.len() {
                assert(p[k] == pairs[k]);
            }
        }
    }
}

/// With no pattern of the pairs from `k` on matching, the line is plain.
proof fn lemma_first_match_plain(pairs: Seq<MatchPair>, line: Seq<char>, k: int)
    requires
        0 <= k,
        forall|i: int|
            0 <= i < pairs.len() ==> regex_captures((#[trigger] pairs[i]).start.pattern.source(), line) is None
                && regex_captures(pairs[i].end.pattern.source(), line) is None,
    ensures
        first_match(pairs, line, k) == ClassView::Plain,
    decreases pairs.len() - k,
{
    if k < pairs.len() {
        assert(regex_captures(pairs[k].start.pattern.source(), line) is None);
        lemma_first_match_plain(pairs, line, k + 1);
    }
}

} // verus!
