//! The classification pipeline: for each commit, evaluate the filter
//! predicates, resolve the canonical identities to credit, and accumulate
//! per-identity totals.

use crate::options::{FilterConfig, FilterView};
use crate::stats::{
    entry_le, lemma_credit_le, lemma_le_fit, lemma_stats_le_trans, spec_credit, stats_fit,
    stats_le, StatsMap, StatsView,
};
use crate::store::AliasMap;
use crate::text::{contains_sub, find_char, find_char_from, seq_has, spec_contains, vec_has};
use vstd::prelude::*;

verus! {

/// One commit as the pipeline consumes it: the message already split at its
/// first colon into header and body, with the diff's line counts.
pub struct CommitRecord {
    /// The raw committer name.
    pub author: String,
    /// The message before its first colon; empty when it has none.
    pub header: String,
    /// The message after its first colon, or all of it when it has none.
    pub body: String,
    /// Commit time in epoch seconds.
    pub timestamp: i64,
    /// Lines added against the parent.
    pub insertions: u64,
    /// Lines removed against the parent.
    pub deletions: u64,
}

/// The mathematical value of one commit record.
pub ghost struct CommitView {
    pub author: Seq<char>,
    pub header: Seq<char>,
    pub body: Seq<char>,
    pub timestamp: int,
    pub insertions: int,
    pub deletions: int,
}

impl View for CommitRecord {
    type V = CommitView;

    open spec fn view(&self) -> CommitView {
        CommitView {
            author: self.author@,
            header: self.header@,
            body: self.body@,
            timestamp: self.timestamp as int,
            insertions: self.insertions as int,
            deletions: self.deletions as int,
        }
    }
}

impl DeepView for CommitRecord {
    type V = CommitView;

    open spec fn deep_view(&self) -> CommitView {
        self.view()
    }
}

/// A commit message split at its first colon: header before it, body after
/// it; without a colon the header is empty and the body is the whole
/// message.
pub open spec fn spec_split_message(msg: Seq<char>) -> (Seq<char>, Seq<char>) {
    match find_char_from(msg, ':', 0) {
        Some(i) => (msg.subrange(0, i), msg.subrange(i + 1, msg.len() as int)),
        None => (Seq::empty(), msg),
    }
}

/// Split a commit message into header and body at its first colon.
pub fn split_message(msg: &String) -> (r: (String, String))
    ensures
        r.0@ == spec_split_message(msg@).0,
        r.1@ == spec_split_message(msg@).1,
{
    let s = msg.as_str();
    match find_char(s, ':') {
        Some(i) => {
            proof {
                crate::store::lemma_find_char_from(msg@, ':', 0);
            }
            let n = s.unicode_len();
            (s.substring_char(0, i).to_owned(), s.substring_char(i + 1, n).to_owned())
        },
        None => (String::new(), msg.clone()),
    }
}

/// What `str::to_lowercase` returns for given characters.
pub uninterp spec fn lower_of(s: Seq<char>) -> Seq<char>;

/// Relies on `str::to_lowercase`: the result is a function of the
/// characters alone, and an empty string stays empty.
#[verifier::external_body]
fn lowercase(s: &str) -> (r: String)
    ensures
        r@ == lower_of(s@),
        s@.len() == 0 ==> r@.len() == 0,
{
    s.to_lowercase()
}

/// Relies on `chrono::Local::now`: the clock's reading as epoch seconds.
/// Nothing is promised of the value.
#[verifier::external_body]
fn now_timestamp() -> i64 {
    chrono::Local::now().timestamp()
}

/// Some term of `terms` occurs in `hay`.
pub open spec fn any_match(hay: Seq<char>, terms: Seq<Seq<char>>) -> bool {
    exists|i: int| 0 <= i < terms.len() && spec_contains(hay, #[trigger] terms[i])
}

/// Some term of `terms` occurs in `first` or in `second`.
pub open spec fn either_match(first: Seq<char>, second: Seq<char>, terms: Seq<Seq<char>>) -> bool {
    exists|i: int|
        0 <= i < terms.len() && (spec_contains(first, #[trigger] terms[i]) || spec_contains(
            second,
            terms[i],
        ))
}

/// Some lower-cased term occurs in the lower-cased `first` or `second`.
pub open spec fn ci_match(first: Seq<char>, second: Seq<char>, terms: Seq<Seq<char>>) -> bool {
    exists|i: int|
        0 <= i < terms.len() && (spec_contains(lower_of(first), lower_of(#[trigger] terms[i]))
            || spec_contains(lower_of(second), lower_of(terms[i])))
}

/// The header holds at least one keyword, or the keyword filter is off.
pub open spec fn keyword_pass(c: CommitView, cfg: FilterView) -> bool {
    !cfg.keyword_filter || any_match(c.header, cfg.keywords)
}

/// Lower-cased header or body holds a lower-cased search term, or the
/// case-insensitive search is off.
pub open spec fn ci_pass(c: CommitView, cfg: FilterView) -> bool {
    !cfg.ci_search || ci_match(c.header, c.body, cfg.ci_terms)
}

/// Header or body holds a search term, or the free-text search is off.
pub open spec fn search_pass(c: CommitView, cfg: FilterView) -> bool {
    !cfg.search || either_match(c.header, c.body, cfg.search_terms)
}

/// The commit is younger than the time budget, or the time window is off.
pub open spec fn time_pass(c: CommitView, cfg: FilterView, now: int) -> bool {
    !cfg.time_window || now - c.timestamp <= cfg.time_seconds
}

/// All four commit-level predicates at once.
pub open spec fn passes(c: CommitView, cfg: FilterView, now: int) -> bool {
    keyword_pass(c, cfg) && ci_pass(c, cfg) && search_pass(c, cfg) && time_pass(c, cfg, now)
}

/// A candidate identity survives the exclusion list.
pub open spec fn admitted(cfg: FilterView, name: Seq<char>) -> bool {
    !cfg.exclude || !seq_has(cfg.excluded, name)
}

/// Whether some term of `terms` occurs in `hay`.
fn any_term_in(hay: &String, terms: &Vec<String>) -> (r: bool)
    ensures
        r == any_match(hay@, terms.deep_view()),
{
    let mut i: usize = 0;
    while i < terms.len()
        invariant
            i <= terms@.len(),
            forall|k: int| 0 <= k < i ==> !spec_contains(hay@, #[trigger] terms.deep_view()[k]),
        decreases terms@.len() - i,
    {
        if contains_sub(hay.as_str(), terms[i].as_str()) {
            assert(spec_contains(hay@, terms.deep_view()[i as int]));
            return true;
        }
        assert(!spec_contains(hay@, terms.deep_view()[i as int]));
        i += 1;
    }
    false
}

/// Whether some term of `terms` occurs in `first` or in `second`.
fn any_term_in_either(first: &String, second: &String, terms: &Vec<String>) -> (r: bool)
    ensures
        r == either_match(first@, second@, terms.deep_view()),
{
    let mut i: usize = 0;
    while i < terms.len()
        invariant
            i <= terms@.len(),
            forall|k: int|
                0 <= k < i ==> !spec_contains(first@, #[trigger] terms.deep_view()[k])
                    && !spec_contains(second@, terms.deep_view()[k]),
        decreases terms@.len() - i,
    {
        if contains_sub(first.as_str(), terms[i].as_str()) || contains_sub(
            second.as_str(),
            terms[i].as_str(),
        ) {
            assert(spec_contains(first@, terms.deep_view()[i as int]) || spec_contains(
                second@,
                terms.deep_view()[i as int],
            ));
            return true;
        }
        i += 1;
    }
    false
}

/// Whether some term matches header or body case-insensitively.
fn any_term_ci(header: &String, body: &String, terms: &Vec<String>) -> (r: bool)
    ensures
        r == ci_match(header@, body@, terms.deep_view()),
{
    let lh = lowercase(header.as_str());
    let lb = lowercase(body.as_str());
    let mut i: usize = 0;
    while i < terms.len()
        invariant
            i <= terms@.len(),
            lh@ == lower_of(header@),
            lb@ == lower_of(body@),
            forall|k: int|
                0 <= k < i ==> !spec_contains(lower_of(header@), lower_of(
                    #[trigger] terms.deep_view()[k],
                )) && !spec_contains(lower_of(body@), lower_of(terms.deep_view()[k])),
        decreases terms@.len() - i,
    {
        let lt = lowercase(terms[i].as_str());
        if contains_sub(lh.as_str(), lt.as_str()) || contains_sub(lb.as_str(), lt.as_str()) {
            assert(spec_contains(lower_of(header@), lower_of(terms.deep_view()[i as int]))
                || spec_contains(lower_of(body@), lower_of(terms.deep_view()[i as int])));
            return true;
        }
        i += 1;
    }
    false
}

/// Evaluate the four commit-level predicates. The commit's age is computed
/// in a wider type, so no clock reading or timestamp is out of range.
pub fn passes_commit(c: &CommitRecord, cfg: &FilterConfig, now: i64) -> (r: bool)
    ensures
        r == passes(c@, cfg@, now as int),
{
    let keyword_ok = !cfg.keyword_filter || any_term_in(&c.header, &cfg.keywords);
    let ci_ok = !cfg.ci_search || any_term_ci(&c.header, &c.body, &cfg.ci_terms);
    let search_ok = !cfg.search || any_term_in_either(&c.header, &c.body, &cfg.search_terms);
    let time_ok = !cfg.time_window || (now as i128) - (c.timestamp as i128) <= (
    cfg.time_seconds as i128);
    keyword_ok && ci_ok && search_ok && time_ok
}

/// A candidate identity survives the exclusion list.
pub fn admits(cfg: &FilterConfig, name: &String) -> (r: bool)
    ensures
        r == admitted(cfg@, name@),
{
    !cfg.exclude || !vec_has(&cfg.excluded, name)
}

/// A character a bracket-list name may hold: anything but a comma or a
/// closing bracket.
pub open spec fn is_name_char(c: char) -> bool {
    c != ',' && c != ']'
}

/// The length of the longest run of name characters starting at `i`.
pub open spec fn name_run(s: Seq<char>, i: int) -> int
    decreases s.len() - i,
        when 0 <= i <= s.len()
{
    if i < s.len() && is_name_char(s[i]) {
        1 + name_run(s, i + 1)
    } else {
        0
    }
}

/// The run length is non-negative and stays inside the string.
pub proof fn lemma_name_run(s: Seq<char>, i: int)
    requires
        0 <= i <= s.len(),
    ensures
        0 <= name_run(s, i) <= s.len() - i,
    decreases s.len() - i,
{
    if i < s.len() && is_name_char(s[i]) {
        lemma_name_run(s, i + 1);
    }
}

/// The names of a bracket list starting at `i`, just after the opening
/// bracket: names of one or more name characters, separated by `", "` and
/// closed by `]`.
pub open spec fn parse_names(s: Seq<char>, i: int) -> Option<Seq<Seq<char>>>
    decreases s.len() - i,
        when 0 <= i <= s.len()
        via parse_names_decreases
{
    let k = name_run(s, i);
    if k == 0 {
        None
    } else {
        let j = i + k;
        if j < s.len() && s[j] == ']' {
            Some(seq![s.subrange(i, j)])
        } else if j + 1 < s.len() && s[j] == ',' && s[j + 1] == ' ' {
            match parse_names(s, j + 2) {
                None => None,
                Some(rest) => Some(seq![s.subrange(i, j)] + rest),
            }
        } else {
            None
        }
    }
}

#[via_fn]
proof fn parse_names_decreases(s: Seq<char>, i: int) {
    if 0 <= i <= s.len() {
        lemma_name_run(s, i);
    }
}

/// The first bracket list found in `s` at or after `i`: the list parsed at
/// the leftmost opening bracket where one parses.
pub open spec fn bracket_from(s: Seq<char>, i: int) -> Option<Seq<Seq<char>>>
    decreases s.len() - i,
        when 0 <= i <= s.len()
{
    if i >= s.len() {
        None
    } else if s[i] == '[' {
        match parse_names(s, i + 1) {
            Some(ns) => Some(ns),
            None => bracket_from(s, i + 1),
        }
    } else {
        bracket_from(s, i + 1)
    }
}

/// The first bracket list of `s`, if any.
pub open spec fn bracket_names(s: Seq<char>) -> Option<Seq<Seq<char>>> {
    bracket_from(s, 0)
}

/// Whether the character at `j` may stand in a name.
fn name_char_at(s: &str, j: usize) -> (r: bool)
    requires
        j < s@.len(),
    ensures
        r == is_name_char(s@[j as int]),
{
    let c = s.get_char(j);
    c != ',' && c != ']'
}

/// The length of the longest run of name characters starting at `i`.
fn name_run_exec(s: &str, i: usize) -> (r: usize)
    requires
        i <= s@.len(),
    ensures
        r as int == name_run(s@, i as int),
        i + r <= s@.len(),
{
    let n = s.unicode_len();
    let mut j: usize = i;
    while j < n && name_char_at(s, j)
        invariant
            i <= j <= n,
            n == s@.len(),
            name_run(s@, i as int) == j - i + name_run(s@, j as int),
        decreases n - j,
    {
        j += 1;
    }
    proof {
        assert(name_run(s@, j as int) == 0);
        lemma_name_run(s@, i as int);
    }
    j - i
}

/// Parse a bracket list's names starting at `i`, just after the opening
/// bracket.
fn parse_names_exec(s: &str, i: usize) -> (r: Option<Vec<String>>)
    requires
        i <= s@.len(),
    ensures
        match r {
            Some(v) => parse_names(s@, i as int) == Some(v.deep_view()),
            None => parse_names(s@, i as int) is None,
        },
    decreases s@.len() - i,
{
    let n = s.unicode_len();
    let k = name_run_exec(s, i);
    if k == 0 {
        return None;
    }
    let j = i + k;
    if j < n {
        let c = s.get_char(j);
        if c == ']' {
            let mut v: Vec<String> = Vec::new();
            v.push(s.substring_char(i, j).to_owned());
            proof {
                assert(v.deep_view() =~= seq![s@.subrange(i as int, j as int)]);
            }
            Some(v)
        } else if c == ',' && j + 1 < n && s.get_char(j + 1) == ' ' {
            match parse_names_exec(s, j + 2) {
                None => None,
                Some(rest) => {
                    let ghost rv = rest.deep_view();
                    let mut v = rest;
                    v.insert(0, s.substring_char(i, j).to_owned());
                    proof {
                        assert(v.deep_view() =~= seq![s@.subrange(i as int, j as int)] + rv);
                    }
                    Some(v)
                },
            }
        } else {
            None
        }
    } else {
        None
    }
}

/// Find the first bracket list of the header, if any.
pub fn bracket_names_exec(s: &str) -> (r: Option<Vec<String>>)
    ensures
        match r {
            Some(v) => bracket_names(s@) == Some(v.deep_view()),
            None => bracket_names(s@) is None,
        },
{
    let n = s.unicode_len();
    let mut i: usize = 0;
    while i < n
        invariant
            i <= n,
            n == s@.len(),
            bracket_from(s@, 0) == bracket_from(s@, i as int),
        decreases n - i,
    {
        if s.get_char(i) == '[' {
            match parse_names_exec(s, i + 1) {
                Some(v) => {
                    return Some(v);
                },
                None => {},
            }
        }
        i += 1;
    }
    None
}

/// The sentinel identity credited in autogenerate mode when the header has
/// no bracket list.
pub open spec fn untagged() -> Seq<char> {
    seq!['u', 'n', 't', 'a', 'g', 'g', 'e', 'd']
}

/// An alias entry matches the raw author when the author is one of its
/// members or is the canonical name itself.
pub open spec fn entry_matches(e: (Seq<char>, Seq<Seq<char>>), author: Seq<char>) -> bool {
    seq_has(e.1, author) || e.0 == author
}

/// The canonical names of the alias entries matching `author`, in store
/// order.
pub open spec fn config_candidates(
    es: Seq<(Seq<char>, Seq<Seq<char>>)>,
    author: Seq<char>,
) -> Seq<Seq<char>>
    decreases es.len(),
{
    if es.len() == 0 {
        Seq::empty()
    } else {
        let rest = config_candidates(es.subrange(1, es.len() as int), author);
        if entry_matches(es[0], author) {
            seq![es[0].0] + rest
        } else {
            rest
        }
    }
}

/// The identities one commit may be credited to, before exclusion: in
/// autogenerate mode, the header's bracket names or the sentinel; otherwise
/// every matching alias record's canonical name, or the raw author as the
/// only fallback unless the run is exclusive.
pub open spec fn candidates(
    c: CommitView,
    cfg: FilterView,
    es: Seq<(Seq<char>, Seq<Seq<char>>)>,
) -> Seq<Seq<char>> {
    if cfg.autogenerate {
        match bracket_names(c.header) {
            Some(ns) => ns,
            None => seq![untagged()],
        }
    } else {
        let base = if cfg.ignore_config {
            Seq::empty()
        } else {
            config_candidates(es, c.author)
        };
        if base.len() == 0 && !cfg.exclusive {
            seq![c.author]
        } else {
            base
        }
    }
}

/// Resolve the candidate identities of one commit.
pub fn resolve_candidates(c: &CommitRecord, cfg: &FilterConfig, map: &AliasMap) -> (v: Vec<String>)
    ensures
        v.deep_view() == candidates(c@, cfg@, map@),
{
    if cfg.autogenerate {
        match bracket_names_exec(c.header.as_str()) {
            Some(v) => v,
            None => {
                let mut v: Vec<String> = Vec::new();
                v.push("untagged".to_owned());
                proof {
                    reveal_strlit("untagged");
                    assert("untagged"@ =~= untagged());
                    assert(v.deep_view() =~= seq![untagged()]);
                }
                v
            },
        }
    } else {
        let ghost es = map@;
        let mut base: Vec<String> = Vec::new();
        if !cfg.ignore_config {
            let mut i: usize = 0;
            proof {
                assert(base.deep_view() =~= Seq::<Seq<char>>::empty());
                assert(es.subrange(0, es.len() as int) =~= es);
            }
            while i < map.entries.len()
                invariant
                    i <= map.entries@.len(),
                    es == map@,
                    es.len() == map.entries@.len(),
                    config_candidates(es, c@.author) == base.deep_view() + config_candidates(
                        es.subrange(i as int, es.len() as int),
                        c@.author,
                    ),
                decreases map.entries@.len() - i,
            {
                let ghost sub = es.subrange(i as int, es.len() as int);
                proof {
                    assert(sub[0] == es[i as int]);
                    assert(sub.subrange(1, sub.len() as int) =~= es.subrange(
                        i + 1,
                        es.len() as int,
                    ));
                    assert(es[i as int] == (map.entries@[i as int].0@, map.entries@[i as int].1.deep_view()));
                }
                let e = &map.entries[i];
                if vec_has(&e.1, &c.author) || e.0.eq(&c.author) {
                    assert(entry_matches(es[i as int], c@.author));
                    let ghost od = base.deep_view();
                    base.push(e.0.clone());
                    proof {
                        assert(base.deep_view() =~= od.push(es[i as int].0));
                        assert(od.push(es[i as int].0) + config_candidates(
                            es.subrange(i + 1, es.len() as int),
                            c@.author,
                        ) =~= od + (seq![es[i as int].0] + config_candidates(
                            es.subrange(i + 1, es.len() as int),
                            c@.author,
                        )));
                    }
                } else {
                    assert(!entry_matches(es[i as int], c@.author));
                }
                i += 1;
            }
            proof {
                assert(es.subrange(es.len() as int, es.len() as int) =~= Seq::<(
                    Seq<char>,
                    Seq<Seq<char>>,
                )>::empty());
                assert(base.deep_view() + Seq::<Seq<char>>::empty() =~= base.deep_view());
            }
        } else {
            proof {
                assert(base.deep_view() =~= Seq::<Seq<char>>::empty());
            }
        }
        if base.len() == 0 && !cfg.exclusive {
            base.push(c.author.clone());
            proof {
                assert(base.deep_view() =~= seq![c@.author]);
            }
        }
        base
    }
}

/// Totals after the candidate identities of one commit are credited in
/// order, each one only if it survives the exclusion list.
pub open spec fn apply_candidates(
    es: Seq<(Seq<char>, StatsView)>,
    cands: Seq<Seq<char>>,
    cfg: FilterView,
    ins: int,
    dels: int,
) -> Seq<(Seq<char>, StatsView)>
    decreases cands.len(),
{
    if cands.len() == 0 {
        es
    } else {
        let e2 = if admitted(cfg, cands[0]) {
            spec_credit(es, cands[0], ins, dels)
        } else {
            es
        };
        apply_candidates(e2, cands.subrange(1, cands.len() as int), cfg, ins, dels)
    }
}

/// Totals after one commit: nothing changes unless it passes every
/// commit-level predicate; then each admitted candidate is credited once.
pub open spec fn apply_commit(
    es: Seq<(Seq<char>, StatsView)>,
    c: CommitView,
    cfg: FilterView,
    map_es: Seq<(Seq<char>, Seq<Seq<char>>)>,
    now: int,
) -> Seq<(Seq<char>, StatsView)> {
    if passes(c, cfg, now) {
        apply_candidates(es, candidates(c, cfg, map_es), cfg, c.insertions, c.deletions)
    } else {
        es
    }
}

/// Totals after a whole history is classified, commit by commit, starting
/// from nothing.
pub open spec fn run_pipeline(
    commits: Seq<CommitView>,
    cfg: FilterView,
    map_es: Seq<(Seq<char>, Seq<Seq<char>>)>,
    now: int,
) -> Seq<(Seq<char>, StatsView)>
    decreases commits.len(),
{
    if commits.len() == 0 {
        Seq::empty()
    } else {
        apply_commit(
            run_pipeline(commits.drop_last(), cfg, map_es, now),
            commits.last(),
            cfg,
            map_es,
            now,
        )
    }
}

/// A candidate fold only grows the totals.
pub proof fn lemma_apply_candidates_le(
    es: Seq<(Seq<char>, StatsView)>,
    cands: Seq<Seq<char>>,
    cfg: FilterView,
    ins: int,
    dels: int,
)
    requires
        ins >= 0,
        dels >= 0,
    ensures
        stats_le(es, apply_candidates(es, cands, cfg, ins, dels)),
    decreases cands.len(),
{
    if cands.len() == 0 {
        assert forall|i: int| 0 <= i < es.len() implies (#[trigger] es[i]).0 == (#[trigger] es[i]).0
            && entry_le(es[i].1, es[i].1) by {
            assert(es[i].1.samples =~= es[i].1.samples.take(es[i].1.samples.len() as int));
        }
    } else {
        let e2 = if admitted(cfg, cands[0]) {
            spec_credit(es, cands[0], ins, dels)
        } else {
            es
        };
        if admitted(cfg, cands[0]) {
            lemma_credit_le(es, cands[0], ins, dels);
        } else {
            lemma_apply_candidates_le(es, Seq::empty(), cfg, ins, dels);
        }
        lemma_apply_candidates_le(e2, cands.subrange(1, cands.len() as int), cfg, ins, dels);
        lemma_stats_le_trans(es, e2, apply_candidates(e2, cands.subrange(1, cands.len() as int), cfg, ins, dels));
    }
}

/// Classify one commit into the accumulated totals.
pub fn classify_commit(
    stats: &mut StatsMap,
    c: &CommitRecord,
    cfg: &FilterConfig,
    map: &AliasMap,
    now: i64,
)
    requires
        old(stats).wf(),
        stats_fit(apply_commit(old(stats)@, c@, cfg@, map@, now as int)),
    ensures
        final(stats)@ == apply_commit(old(stats)@, c@, cfg@, map@, now as int),
        final(stats).wf(),
{
    proof {
        let target = apply_commit(stats@, c@, cfg@, map@, now as int);
        if passes(c@, cfg@, now as int) {
            lemma_apply_candidates_le(
                stats@,
                candidates(c@, cfg@, map@),
                cfg@,
                c@.insertions,
                c@.deletions,
            );
            lemma_le_fit(stats@, target);
        }
    }
    let r = try_classify_commit(stats, c, cfg, map, now);
    proof {
        assert(r);
    }
}

/// Classify one commit if every grown total stays within machine bounds,
/// and report whether they do. On an overflow the accumulated totals are
/// left at the last bounded state, still well formed.
pub fn try_classify_commit(
    stats: &mut StatsMap,
    c: &CommitRecord,
    cfg: &FilterConfig,
    map: &AliasMap,
    now: i64,
) -> (r: bool)
    requires
        old(stats).wf(),
        stats_fit(old(stats)@),
    ensures
        r == stats_fit(apply_commit(old(stats)@, c@, cfg@, map@, now as int)),
        r ==> final(stats)@ == apply_commit(old(stats)@, c@, cfg@, map@, now as int),
        final(stats).wf(),
        stats_fit(final(stats)@),
{
    let ghost start = stats@;
    let ghost target = apply_commit(start, c@, cfg@, map@, now as int);
    if !passes_commit(c, cfg, now) {
        return true;
    }
    let cands = resolve_candidates(c, cfg, map);
    let ghost cs = cands.deep_view();
    let ins = c.insertions;
    let dels = c.deletions;
    proof {
        assert(cs.subrange(0, cs.len() as int) =~= cs);
    }
    let mut i: usize = 0;
    while i < cands.len()
        invariant
            i <= cands@.len(),
            cs == cands.deep_view(),
            cs.len() == cands@.len(),
            ins == c.insertions,
            dels == c.deletions,
            stats.wf(),
            stats_fit(stats@),
            target == apply_commit(old(stats)@, c@, cfg@, map@, now as int),
            target == apply_candidates(
                stats@,
                cs.subrange(i as int, cs.len() as int),
                cfg@,
                ins as int,
                dels as int,
            ),
        decreases cands@.len() - i,
    {
        let ghost sub = cs.subrange(i as int, cs.len() as int);
        proof {
            assert(sub[0] == cs[i as int]);
            assert(sub.subrange(1, sub.len() as int) =~= cs.subrange(i + 1, cs.len() as int));
        }
        if admits(cfg, &cands[i]) {
            let ok = stats.try_credit(&cands[i], ins, dels);
            if !ok {
                proof {
                    assert(cs[i as int] == cands@[i as int]@);
                    let credited = spec_credit(stats@, cs[i as int], ins as int, dels as int);
                    assert(!stats_fit(credited));
                    assert(target == apply_candidates(
                        credited,
                        cs.subrange(i + 1, cs.len() as int),
                        cfg@,
                        ins as int,
                        dels as int,
                    ));
                    lemma_apply_candidates_le(
                        credited,
                        cs.subrange(i + 1, cs.len() as int),
                        cfg@,
                        ins as int,
                        dels as int,
                    );
                    if stats_fit(target) {
                        lemma_le_fit(credited, target);
                        assert(false);
                    }
                }
                return false;
            }
        }
        i += 1;
    }
    proof {
        assert(cs.subrange(cs.len() as int, cs.len() as int) =~= Seq::<Seq<char>>::empty());
    }
    true
}

/// No totals overflow anywhere along the pipeline run.
pub open spec fn pipeline_fits(
    commits: Seq<CommitView>,
    cfg: FilterView,
    map_es: Seq<(Seq<char>, Seq<Seq<char>>)>,
    now: int,
) -> bool {
    forall|k: int|
        0 <= k <= commits.len() ==> stats_fit(
            run_pipeline(#[trigger] commits.take(k), cfg, map_es, now),
        )
}

/// Classify a whole history if no total overflows along the run; `None`
/// reports exactly that some prefix of the run overflows a `u64` total.
pub fn try_compute_stats(
    commits: &Vec<CommitRecord>,
    cfg: &FilterConfig,
    map: &AliasMap,
    now: i64,
) -> (r: Option<StatsMap>)
    ensures
        match r {
            Some(stats) => stats@ == run_pipeline(commits.deep_view(), cfg@, map@, now as int)
                && stats.wf() && pipeline_fits(commits.deep_view(), cfg@, map@, now as int),
            None => !pipeline_fits(commits.deep_view(), cfg@, map@, now as int),
        },
{
    let ghost cs = commits.deep_view();
    let mut stats = StatsMap::new();
    proof {
        assert(cs.take(0) =~= Seq::<CommitView>::empty());
    }
    let mut i: usize = 0;
    while i < commits.len()
        invariant
            i <= commits@.len(),
            cs == commits.deep_view(),
            cs.len() == commits@.len(),
            stats.wf(),
            stats_fit(stats@),
            stats@ == run_pipeline(cs.take(i as int), cfg@, map@, now as int),
            forall|k: int|
                0 <= k <= i ==> stats_fit(
                    run_pipeline(#[trigger] cs.take(k), cfg@, map@, now as int),
                ),
        decreases commits@.len() - i,
    {
        proof {
            assert(cs.take(i + 1).drop_last() =~= cs.take(i as int));
            assert(cs.take(i + 1).last() == cs[i as int]);
            assert(cs[i as int] == commits@[i as int]@);
        }
        let ok = try_classify_commit(&mut stats, &commits[i], cfg, map, now);
        if !ok {
            proof {
                assert(!stats_fit(run_pipeline(cs.take(i + 1), cfg@, map@, now as int)));
            }
            return None;
        }
        i += 1;
    }
    proof {
        assert(cs.take(commits@.len() as int) =~= cs);
    }
    Some(stats)
}

/// Classify a whole history: the accumulated totals of every commit,
/// threaded through [`apply_commit`] in order, starting from nothing.
pub fn compute_stats(
    commits: &Vec<CommitRecord>,
    cfg: &FilterConfig,
    map: &AliasMap,
    now: i64,
) -> (stats: StatsMap)
    requires
        pipeline_fits(commits.deep_view(), cfg@, map@, now as int),
    ensures
        stats@ == run_pipeline(commits.deep_view(), cfg@, map@, now as int),
        stats.wf(),
{
    match try_compute_stats(commits, cfg, map, now) {
        Some(stats) => stats,
        None => {
            proof {
                assert(false);
            }
            StatsMap::new()
        },
    }
}

/// Classify a whole history against the clock's current reading: the totals
/// for some machine-representable reading, which cannot be promised. `None`
/// reports that the run overflows a `u64` total for that reading.
pub fn compute_stats_now(commits: &Vec<CommitRecord>, cfg: &FilterConfig, map: &AliasMap) -> (r:
    Option<StatsMap>)
    ensures
        match r {
            Some(stats) => stats.wf() && exists|now: int|
                i64::MIN <= now <= i64::MAX && stats@ == #[trigger] run_pipeline(
                    commits.deep_view(),
                    cfg@,
                    map@,
                    now,
                ) && pipeline_fits(commits.deep_view(), cfg@, map@, now),
            None => exists|now: int|
                i64::MIN <= now <= i64::MAX && !#[trigger] pipeline_fits(
                    commits.deep_view(),
                    cfg@,
                    map@,
                    now,
                ),
        },
{
    let now = now_timestamp();
    let r = try_compute_stats(commits, cfg, map, now);
    match r {
        Some(stats) => {
            proof {
                assert(stats@ == run_pipeline(commits.deep_view(), cfg@, map@, now as int)
                    && pipeline_fits(commits.deep_view(), cfg@, map@, now as int));
            }
            Some(stats)
        },
        None => {
            proof {
                assert(!pipeline_fits(commits.deep_view(), cfg@, map@, now as int));
            }
            None
        },
    }
}

/// With every filter toggle off, every commit passes the commit-level
/// predicates, and with the exclusion list off every candidate is admitted:
/// nothing but exclusion ever withholds a credit.
pub proof fn lemma_disabled_predicates_pass(c: CommitView, cfg: FilterView, now: int)
    requires
        !cfg.keyword_filter,
        !cfg.ci_search,
        !cfg.search,
        !cfg.time_window,
    ensures
        passes(c, cfg, now),
        !cfg.exclude ==> forall|name: Seq<char>| admitted(cfg, name),
{
}

/// With the time window on, a commit older than the budget is credited to
/// nobody: it leaves the totals untouched.
pub proof fn lemma_time_window_excludes(
    es: Seq<(Seq<char>, StatsView)>,
    c: CommitView,
    cfg: FilterView,
    map_es: Seq<(Seq<char>, Seq<Seq<char>>)>,
    now: int,
)
    requires
        cfg.time_window,
        now - c.timestamp > cfg.time_seconds,
    ensures
        apply_commit(es, c, cfg, map_es, now) == es,
{
    assert(!time_pass(c, cfg, now));
}

/// The commit count credited to `name`, or zero without an entry.
pub open spec fn commits_of(es: Seq<(Seq<char>, StatsView)>, name: Seq<char>) -> int {
    match crate::stats::stats_index(es, name) {
        Some(i) => es[i].1.commits,
        None => 0,
    }
}

/// How often `name` stands among the candidates.
pub open spec fn occ_count(cands: Seq<Seq<char>>, name: Seq<char>) -> int
    decreases cands.len(),
{
    if cands.len() == 0 {
        0
    } else {
        (if cands[0] == name {
            1int
        } else {
            0int
        }) + occ_count(cands.subrange(1, cands.len() as int), name)
    }
}

/// One credit raises the credited name's commit count by one and leaves
/// every other name's count alone.
pub proof fn lemma_credit_commits_of(
    es: Seq<(Seq<char>, StatsView)>,
    credited: Seq<char>,
    ins: int,
    dels: int,
    name: Seq<char>,
)
    ensures
        commits_of(spec_credit(es, credited, ins, dels), name) == commits_of(es, name) + (
        if credited == name {
            1int
        } else {
            0int
        }),
    decreases es.len(),
{
    crate::stats::lemma_stats_index(es, credited);
    let es2 = spec_credit(es, credited, ins, dels);
    crate::stats::lemma_stats_index(es2, name);
    crate::stats::lemma_stats_index(es, name);
    match crate::stats::stats_index(es, credited) {
        Some(i) => {
            assert(es2 == es.update(i, es2[i]));
            lemma_stats_index_same_keys(es, es2, name);
            match crate::stats::stats_index(es, name) {
                Some(x) => {
                    if x == i {
                        assert(credited == name);
                    } else {
                        assert(es2[x] == es[x]);
                        assert(credited != name);
                    }
                },
                None => {
                    assert(es[i].0 == credited);
                    assert(credited != name);
                },
            }
        },
        None => {
            lemma_stats_index_push(es, es2[es.len() as int], name);
            match crate::stats::stats_index(es, name) {
                Some(x) => {
                    assert(es2[x] == es[x]);
                    assert(es[x].0 == name);
                    assert(credited != name);
                },
                None => {
                    if credited == name {
                        assert(crate::stats::stats_index(es2, name) == Some(es.len() as int));
                        assert(es2[es.len() as int].1.commits == 1);
                    } else {
                        assert(crate::stats::stats_index(es2, name) is None);
                    }
                },
            }
        },
    }
}

/// Updating an entry's totals moves no entry and changes no key, so lookup
/// positions stay put.
proof fn lemma_stats_index_same_keys(
    es: Seq<(Seq<char>, StatsView)>,
    es2: Seq<(Seq<char>, StatsView)>,
    name: Seq<char>,
)
    requires
        es.len() == es2.len(),
        forall|k: int| 0 <= k < es.len() ==> (#[trigger] es2[k]).0 == (#[trigger] es[k]).0,
    ensures
        crate::stats::stats_index(es2, name) == crate::stats::stats_index(es, name),
    decreases es.len(),
{
    if es.len() > 0 {
        assert(es2[0].0 == es[0].0);
        let t1 = es.subrange(1, es.len() as int);
        let t2 = es2.subrange(1, es2.len() as int);
        assert forall|k: int| 0 <= k < t1.len() implies (#[trigger] t2[k]).0 == (
        #[trigger] t1[k]).0 by {
            assert(t1[k] == es[k + 1]);
            assert(t2[k] == es2[k + 1]);
        }
        lemma_stats_index_same_keys(t1, t2, name);
    }
}

/// Appending an entry leaves the lookup of present names alone and lets an
/// absent name be found at the back.
proof fn lemma_stats_index_push(
    es: Seq<(Seq<char>, StatsView)>,
    e: (Seq<char>, StatsView),
    name: Seq<char>,
)
    ensures
        crate::stats::stats_index(es.push(e), name) == (
        match crate::stats::stats_index(es, name) {
            Some(i) => Some(i),
            None => if e.0 == name {
                Some(es.len() as int)
            } else {
                None::<int>
            },
        }),
    decreases es.len(),
{
    let es2 = es.push(e);
    if es.len() == 0 {
        assert(es2[0] == e);
        assert(es2.subrange(1, es2.len() as int) =~= Seq::<(Seq<char>, StatsView)>::empty());
        assert(crate::stats::stats_index(Seq::<(Seq<char>, StatsView)>::empty(), name) is None);
        assert(crate::stats::stats_index(es, name) is None);
        if e.0 == name {
            assert(crate::stats::stats_index(es2, name) == Some(0int));
        } else {
            assert(crate::stats::stats_index(es2, name) is None);
        }
    } else {
        assert(es2[0] == es[0]);
        let t1 = es.subrange(1, es.len() as int);
        let t2 = es2.subrange(1, es2.len() as int);
        assert(t2 =~= t1.push(e));
        lemma_stats_index_push(t1, e, name);
        if es[0].0 == name {
            assert(crate::stats::stats_index(es, name) == Some(0int));
            assert(crate::stats::stats_index(es2, name) == Some(0int));
        } else {
            assert(crate::stats::stats_index(es2, name) == (match crate::stats::stats_index(
                t2,
                name,
            ) {
                Some(i) => Some(i + 1),
                None => None::<int>,
            }));
            assert(crate::stats::stats_index(es, name) == (match crate::stats::stats_index(
                t1,
                name,
            ) {
                Some(i) => Some(i + 1),
                None => None::<int>,
            }));
            assert(t1.len() + 1 == es.len());
        }
    }
}

/// A candidate fold raises each admitted name's commit count by the number
/// of times it stands among the candidates, and leaves excluded names
/// untouched.
pub proof fn lemma_apply_candidates_commits_of(
    es: Seq<(Seq<char>, StatsView)>,
    cands: Seq<Seq<char>>,
    cfg: FilterView,
    ins: int,
    dels: int,
    name: Seq<char>,
)
    ensures
        commits_of(apply_candidates(es, cands, cfg, ins, dels), name) == commits_of(es, name) + (
        if admitted(cfg, name) {
            occ_count(cands, name)
        } else {
            0int
        }),
    decreases cands.len(),
{
    if cands.len() > 0 {
        let e2 = if admitted(cfg, cands[0]) {
            spec_credit(es, cands[0], ins, dels)
        } else {
            es
        };
        if admitted(cfg, cands[0]) {
            lemma_credit_commits_of(es, cands[0], ins, dels, name);
        }
        lemma_apply_candidates_commits_of(
            e2,
            cands.subrange(1, cands.len() as int),
            cfg,
            ins,
            dels,
            name,
        );
    }
}

/// A key standing at a matching entry occurs exactly once among the
/// config-driven candidates when no other entry holds it.
proof fn lemma_config_candidates_occ(
    es: Seq<(Seq<char>, Seq<Seq<char>>)>,
    author: Seq<char>,
    key: Seq<char>,
    i: int,
)
    requires
        0 <= i < es.len(),
        es[i].0 == key,
        entry_matches(es[i], author),
        forall|k: int| 0 <= k < es.len() && k != i ==> (#[trigger] es[k]).0 != key,
    ensures
        occ_count(config_candidates(es, author), key) == 1,
    decreases es.len(),
{
    let tail = es.subrange(1, es.len() as int);
    let rest = config_candidates(tail, author);
    if i == 0 {
        assert forall|k: int| 0 <= k < tail.len() implies (#[trigger] tail[k]).0 != key by {
            assert(tail[k] == es[k + 1]);
        }
        lemma_config_candidates_absent(tail, author, key);
        if entry_matches(es[0], author) {
            let cs = seq![es[0].0] + rest;
            assert(cs[0] == key);
            assert(cs.subrange(1, cs.len() as int) =~= rest);
        }
    } else {
        assert(tail[i - 1] == es[i]);
        assert forall|k: int| 0 <= k < tail.len() && k != i - 1 implies (#[trigger] tail[k]).0
            != key by {
            assert(tail[k] == es[k + 1]);
        }
        lemma_config_candidates_occ(tail, author, key, i - 1);
        assert(es[0].0 != key);
        if entry_matches(es[0], author) {
            let cs = seq![es[0].0] + rest;
            assert(cs[0] != key);
            assert(cs.subrange(1, cs.len() as int) =~= rest);
        }
    }
}

/// A key no entry holds never stands among the config-driven candidates.
proof fn lemma_config_candidates_absent(
    es: Seq<(Seq<char>, Seq<Seq<char>>)>,
    author: Seq<char>,
    key: Seq<char>,
)
    requires
        forall|k: int| 0 <= k < es.len() ==> (#[trigger] es[k]).0 != key,
    ensures
        occ_count(config_candidates(es, author), key) == 0,
    decreases es.len(),
{
    if es.len() > 0 {
        let tail = es.subrange(1, es.len() as int);
        assert forall|k: int| 0 <= k < tail.len() implies (#[trigger] tail[k]).0 != key by {
            assert(tail[k] == es[k + 1]);
        }
        lemma_config_candidates_absent(tail, author, key);
        let rest = config_candidates(tail, author);
        if entry_matches(es[0], author) {
            let cs = seq![es[0].0] + rest;
            assert(cs[0] != key);
            assert(cs.subrange(1, cs.len() as int) =~= rest);
        }
    }
}

/// Fan-out: in config-driven mode, a commit that passes the predicates credits
/// every matching alias record's canonical name once; an author standing in
/// two records is credited once per record.
pub proof fn lemma_fan_out(
    es: Seq<(Seq<char>, StatsView)>,
    c: CommitView,
    cfg: FilterView,
    map_es: Seq<(Seq<char>, Seq<Seq<char>>)>,
    now: int,
    i: int,
)
    requires
        !cfg.autogenerate,
        !cfg.ignore_config,
        crate::store::unique_keys(map_es),
        0 <= i < map_es.len(),
        entry_matches(map_es[i], c.author),
        passes(c, cfg, now),
        admitted(cfg, map_es[i].0),
    ensures
        commits_of(apply_commit(es, c, cfg, map_es, now), map_es[i].0) == commits_of(
            es,
            map_es[i].0,
        ) + 1,
{
    let key = map_es[i].0;
    assert forall|k: int| 0 <= k < map_es.len() && k != i implies (#[trigger] map_es[k]).0
        != key by {
        if k < i {
            assert(map_es[k].0 != map_es[i].0);
        } else {
            assert(map_es[i].0 != map_es[k].0);
        }
    }
    lemma_config_candidates_occ(map_es, c.author, key, i);
    let base = config_candidates(map_es, c.author);
    assert(occ_count(base, key) == 1);
    assert(base.len() > 0) by {
        if base.len() == 0 {
            assert(occ_count(base, key) == 0);
        }
    }
    assert(candidates(c, cfg, map_es) == base);
    lemma_apply_candidates_commits_of(es, base, cfg, c.insertions, c.deletions, key);
}

} // verus!
