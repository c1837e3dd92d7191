//! The alias store: an ordered sequence of text lines holding an optional
//! repository-path record followed by alias records of the shape
//! `canonical: member, member, ...`. The functions here work on the lines
//! themselves; reading and writing the backing file is the caller's business.

use crate::text::{
    find_char, find_char_from, is_wspace, lemma_join_ends, lemma_split_join, seq_has, spec_contains,
    spec_join, spec_split, spec_trim, split_terms, trim_str, vec_has, ws_prefix_end,
    ws_suffix_start,
};
use vstd::prelude::*;

verus! {

/// The separator written between the members of an alias record.
pub open spec fn comma_space() -> Seq<char> {
    seq![',', ' ']
}

/// A repository-path record: a line starting with `"# "`.
pub open spec fn is_path_line(line: Seq<char>) -> bool {
    line.len() >= 2 && line[0] == '#' && line[1] == ' '
}

/// The member list an alias line encodes after its colon: the text is
/// trimmed of surrounding whitespace and split at every `", "`.
pub open spec fn spec_members(rest: Seq<char>) -> Seq<Seq<char>> {
    spec_split(spec_trim(rest), comma_space())
}

/// An alias line split at its first colon into the canonical name before it
/// and the member list after it; a line without a colon does not split.
pub open spec fn spec_alias_split(line: Seq<char>) -> Option<(Seq<char>, Seq<Seq<char>>)> {
    match find_char_from(line, ':', 0) {
        None => None,
        Some(i) => Some(
            (line.subrange(0, i), spec_members(line.subrange(i + 1, line.len() as int))),
        ),
    }
}

/// The token before the first colon of a line, or the whole line if it has
/// no colon; deletion matches lines by this token.
pub open spec fn first_token(line: Seq<char>) -> Seq<char> {
    match find_char_from(line, ':', 0) {
        None => line,
        Some(i) => line.subrange(0, i),
    }
}

/// Where `find_char_from` points: the leftmost occurrence of `c` at or
/// after `i`, with none before it.
pub proof fn lemma_find_char_from(s: Seq<char>, c: char, i: int)
    requires
        0 <= i,
    ensures
        match find_char_from(s, c, i) {
            Some(j) => i <= j < s.len() && s[j] == c && forall|k: int| i <= k < j ==> s[k] != c,
            None => forall|k: int| i <= k < s.len() ==> s[k] != c,
        },
    decreases s.len() - i + 1,
{
    if i < s.len() && s[i] != c {
        lemma_find_char_from(s, c, i + 1);
    }
}

/// The canonical-to-members mapping the store denotes: path lines are
/// skipped, lines without a colon are dropped, and of two lines with the
/// same canonical name the later one wins.
pub open spec fn spec_get_map(lines: Seq<Seq<char>>) -> Map<Seq<char>, Seq<Seq<char>>>
    decreases lines.len(),
{
    if lines.len() == 0 {
        Map::empty()
    } else {
        let m = spec_get_map(lines.drop_last());
        let line = lines.last();
        if is_path_line(line) {
            m
        } else {
            match spec_alias_split(line) {
                None => m,
                Some((a, ms)) => m.insert(a, ms),
            }
        }
    }
}

/// The position of the entry for `key`, if one exists.
pub open spec fn alias_index(es: Seq<(Seq<char>, Seq<Seq<char>>)>, key: Seq<char>) -> Option<int>
    decreases es.len(),
{
    if es.len() == 0 {
        None
    } else if es[0].0 == key {
        Some(0)
    } else {
        match alias_index(es.subrange(1, es.len() as int), key) {
            None => None,
            Some(i) => Some(i + 1),
        }
    }
}

/// `alias_index` points at the first entry for `key`, or at nothing when no
/// entry holds it.
pub proof fn lemma_alias_index(es: Seq<(Seq<char>, Seq<Seq<char>>)>, key: Seq<char>)
    ensures
        match alias_index(es, key) {
            Some(i) => 0 <= i < es.len() && es[i].0 == key && forall|j: int|
                0 <= j < i ==> (#[trigger] es[j]).0 != key,
            None => forall|j: int| 0 <= j < es.len() ==> (#[trigger] es[j]).0 != key,
        },
    decreases es.len(),
{
    if es.len() > 0 && es[0].0 != key {
        let tail = es.subrange(1, es.len() as int);
        lemma_alias_index(tail, key);
        match alias_index(es, key) {
            Some(i) => {
                assert(tail[i - 1] == es[i]);
                assert forall|j: int| 0 <= j < i implies (#[trigger] es[j]).0 != key by {
                    if j > 0 {
                        assert(tail[j - 1] == es[j]);
                    }
                }
            },
            None => {
                assert forall|j: int| 0 <= j < es.len() implies (#[trigger] es[j]).0 != key by {
                    if j > 0 {
                        assert(tail[j - 1] == es[j]);
                    }
                }
            },
        }
    }
}

/// The parsed entries of the store in first-occurrence order: each alias
/// line updates its canonical name's entry in place or adds one at the
/// back, so a later line's members win without moving the entry.
pub open spec fn spec_map_entries(lines: Seq<Seq<char>>) -> Seq<(Seq<char>, Seq<Seq<char>>)>
    decreases lines.len(),
{
    if lines.len() == 0 {
        Seq::empty()
    } else {
        let prev = spec_map_entries(lines.drop_last());
        let line = lines.last();
        if is_path_line(line) {
            prev
        } else {
            match spec_alias_split(line) {
                None => prev,
                Some((a, ms)) => match alias_index(prev, a) {
                    Some(i) => prev.update(i, (a, ms)),
                    None => prev.push((a, ms)),
                },
            }
        }
    }
}

/// The members of the last line whose canonical name is `alias`, or the
/// empty list if no line has it.
pub open spec fn spec_names_with(lines: Seq<Seq<char>>, alias: Seq<char>) -> Seq<Seq<char>>
    decreases lines.len(),
{
    if lines.len() == 0 {
        Seq::empty()
    } else {
        match spec_alias_split(lines.last()) {
            Some((a, ms)) => if a == alias {
                ms
            } else {
                spec_names_with(lines.drop_last(), alias)
            },
            None => spec_names_with(lines.drop_last(), alias),
        }
    }
}

/// The lines a deletion keeps: those whose first token is not one of the
/// doomed names, in store order.
pub open spec fn spec_delete(lines: Seq<Seq<char>>, names: Seq<Seq<char>>) -> Seq<Seq<char>>
    decreases lines.len(),
{
    if lines.len() == 0 {
        Seq::empty()
    } else {
        let kept = spec_delete(lines.drop_last(), names);
        if seq_has(names, first_token(lines.last())) {
            kept
        } else {
            kept.push(lines.last())
        }
    }
}

/// The first tokens of the lines a deletion removes, in store order.
pub open spec fn spec_deleted_tokens(lines: Seq<Seq<char>>, names: Seq<Seq<char>>) -> Seq<
    Seq<char>,
>
    decreases lines.len(),
{
    if lines.len() == 0 {
        Seq::empty()
    } else {
        let toks = spec_deleted_tokens(lines.drop_last(), names);
        if seq_has(names, first_token(lines.last())) {
            toks.push(first_token(lines.last()))
        } else {
            toks
        }
    }
}

/// The line written for canonical name `alias` with member list `ms`.
pub open spec fn spec_render(alias: Seq<char>, ms: Seq<Seq<char>>) -> Seq<char> {
    alias + seq![':', ' '] + spec_join(ms, comma_space())
}

/// The store after an addition: `names[0]` is the canonical name and the
/// rest are new members. If the canonical name already resolves to a
/// non-empty member list, its old lines are removed and the old members are
/// kept in front of the new ones; the merged record is appended last.
pub open spec fn spec_add_alias(lines: Seq<Seq<char>>, names: Seq<Seq<char>>) -> Seq<Seq<char>>
    recommends
        names.len() >= 1,
{
    let alias = names[0];
    let rest = names.subrange(1, names.len() as int);
    let prior = spec_names_with(lines, alias);
    if prior.len() > 0 {
        spec_delete(lines, seq![alias]).push(spec_render(alias, prior + rest))
    } else {
        lines.push(spec_render(alias, rest))
    }
}

/// The repository path the store holds: the second space-separated token of
/// the first line when that line is a path record, and empty otherwise.
pub open spec fn spec_get_path(lines: Seq<Seq<char>>) -> Seq<char> {
    if lines.len() > 0 && is_path_line(lines[0]) {
        spec_split(lines[0], seq![' '])[1]
    } else {
        Seq::empty()
    }
}

/// The store after the path is set: an existing path record is replaced in
/// place, otherwise a new one is put in front.
pub open spec fn spec_set_path(lines: Seq<Seq<char>>, path: Seq<char>) -> Seq<Seq<char>> {
    let pl = seq!['#', ' '] + path;
    if lines.len() > 0 && is_path_line(lines[0]) {
        lines.update(0, pl)
    } else {
        seq![pl] + lines
    }
}

/// The parsed alias store: each canonical name beside its member list, with
/// no canonical name occurring twice.
pub struct AliasMap {
    pub entries: Vec<(String, Vec<String>)>,
}

impl View for AliasMap {
    type V = Seq<(Seq<char>, Seq<Seq<char>>)>;

    open spec fn view(&self) -> Self::V {
        Seq::new(
            self.entries@.len(),
            |i: int| (self.entries@[i].0@, self.entries@[i].1.deep_view()),
        )
    }
}

/// No canonical name occurs twice among the entries.
pub open spec fn unique_keys(es: Seq<(Seq<char>, Seq<Seq<char>>)>) -> bool {
    forall|i: int, j: int| 0 <= i < j < es.len() ==> (#[trigger] es[i]).0 != (#[trigger] es[j]).0
}

/// The mapping an entry sequence denotes.
pub open spec fn entries_map(es: Seq<(Seq<char>, Seq<Seq<char>>)>) -> Map<
    Seq<char>,
    Seq<Seq<char>>,
>
    decreases es.len(),
{
    if es.len() == 0 {
        Map::empty()
    } else {
        entries_map(es.drop_last()).insert(es.last().0, es.last().1)
    }
}

/// With unique keys, the mapping holds exactly the entry keys, each bound to
/// the member list stored beside it.
pub proof fn lemma_entries_map(es: Seq<(Seq<char>, Seq<Seq<char>>)>)
    requires
        unique_keys(es),
    ensures
        forall|k: Seq<char>| #[trigger]
            entries_map(es).dom().contains(k) <==> exists|i: int|
                0 <= i < es.len() && (#[trigger] es[i]).0 == k,
        forall|i: int| 0 <= i < es.len() ==> entries_map(es)[(#[trigger] es[i]).0] == es[i].1,
    decreases es.len(),
{
    if es.len() > 0 {
        let front = es.drop_last();
        assert(unique_keys(front));
        lemma_entries_map(front);
        assert forall|i: int| 0 <= i < es.len() implies entries_map(es)[(#[trigger] es[i]).0]
            == es[i].1 by {
            if i < es.len() - 1 {
                assert(front[i] == es[i]);
                assert(es[i].0 != es.last().0);
            }
        }
        assert forall|k: Seq<char>| #[trigger] entries_map(es).dom().contains(k) implies exists|
            i: int,
        |
            0 <= i < es.len() && (#[trigger] es[i]).0 == k by {
            if k != es.last().0 {
                assert(entries_map(front).dom().contains(k));
                assert(exists|i: int| 0 <= i < front.len() && (#[trigger] front[i]).0 == k);
                let i = choose|i: int| 0 <= i < front.len() && (#[trigger] front[i]).0 == k;
                assert(front[i] == es[i]);
                assert(es[i].0 == k);
            } else {
                assert(es[es.len() - 1].0 == k);
            }
        }
        assert forall|k: Seq<char>|
            exists|i: int|
                0 <= i < es.len() && (#[trigger] es[i]).0 == k implies #[trigger] entries_map(
            es,
        ).dom().contains(k) by {
            let i = choose|i: int| 0 <= i < es.len() && (#[trigger] es[i]).0 == k;
            if i < es.len() - 1 {
                assert(front[i].0 == k);
            }
        }
    }
}

/// Updating the member list of one entry updates the mapping at its key.
pub proof fn lemma_entries_map_update(
    es: Seq<(Seq<char>, Seq<Seq<char>>)>,
    k: int,
    v: Seq<Seq<char>>,
)
    requires
        unique_keys(es),
        0 <= k < es.len(),
    ensures
        entries_map(es.update(k, (es[k].0, v))) == entries_map(es).insert(es[k].0, v),
        unique_keys(es.update(k, (es[k].0, v))),
    decreases es.len(),
{
    let es2 = es.update(k, (es[k].0, v));
    assert(es2.len() == es.len());
    if k == es.len() - 1 {
        assert(es2.drop_last() =~= es.drop_last());
        assert(es2.last() == (es[k].0, v));
        assert(entries_map(es2) =~= entries_map(es).insert(es[k].0, v));
    } else {
        let front = es.drop_last();
        assert(unique_keys(front));
        lemma_entries_map_update(front, k, v);
        assert(es2.drop_last() =~= front.update(k, (es[k].0, v)));
        assert(front[k] == es[k]);
        assert(es2.last() == es.last());
        assert(es[k].0 != es.last().0);
        assert(entries_map(es2) =~= entries_map(es).insert(es[k].0, v));
    }
}

impl AliasMap {
    /// Entries are well formed: no canonical name is repeated.
    pub open spec fn wf(&self) -> bool {
        unique_keys(self@)
    }

    /// The mapping the entries denote.
    pub open spec fn as_map(&self) -> Map<Seq<char>, Seq<Seq<char>>> {
        entries_map(self@)
    }

    /// How many canonical names are mapped.
    pub fn len(&self) -> (n: usize)
        ensures
            n == self@.len(),
    {
        self.entries.len()
    }

    /// The member list recorded for `alias`, if any.
    pub fn members_of(&self, alias: &String) -> (r: Option<&Vec<String>>)
        requires
            self.wf(),
        ensures
            match r {
                Some(v) => self.as_map().dom().contains(alias@) && v.deep_view()
                    == self.as_map().index(alias@),
                None => !self.as_map().dom().contains(alias@),
            },
    {
        proof {
            lemma_entries_map(self@);
        }
        match find_entry(self, alias) {
            Some(i) => Some(&self.entries[i].1),
            None => None,
        }
    }
}

/// The index of the entry whose canonical name is `alias`, if any.
fn find_entry(m: &AliasMap, alias: &String) -> (r: Option<usize>)
    ensures
        match r {
            Some(i) => i < m@.len() && m@[i as int].0 == alias@,
            None => forall|i: int| 0 <= i < m@.len() ==> (#[trigger] m@[i]).0 != alias@,
        },
{
    let mut i: usize = 0;
    while i < m.entries.len()
        invariant
            i <= m.entries@.len(),
            m@.len() == m.entries@.len(),
            forall|k: int| 0 <= k < i ==> (#[trigger] m@[k]).0 != alias@,
        decreases m.entries@.len() - i,
    {
        if m.entries[i].0.eq(alias) {
            assert(m@[i as int].0 == alias@);
            return Some(i);
        }
        assert(m@[i as int].0 != alias@);
        i += 1;
    }
    None
}

/// Parse the whole store into its canonical-to-members mapping: path lines
/// are skipped, unsplittable lines dropped, and a later line with the same
/// canonical name wins over an earlier one. The entries stand in
/// first-occurrence order of the canonical names.
pub fn get_map(lines: &Vec<String>) -> (m: AliasMap)
    ensures
        m.wf(),
        m@ == spec_map_entries(lines.deep_view()),
        m.as_map() == spec_get_map(lines.deep_view()),
{
    let ghost ls = lines.deep_view();
    let mut m = AliasMap { entries: Vec::new() };
    proof {
        assert(m@ =~= Seq::<(Seq<char>, Seq<Seq<char>>)>::empty());
        assert(m.as_map() =~= spec_get_map(ls.take(0)));
        assert(m@ =~= spec_map_entries(ls.take(0)));
    }
    let mut i: usize = 0;
    while i < lines.len()
        invariant
            i <= lines@.len(),
            ls == lines.deep_view(),
            m.wf(),
            m@ == spec_map_entries(ls.take(i as int)),
            m.as_map() == spec_get_map(ls.take(i as int)),
        decreases lines@.len() - i,
    {
        proof {
            assert(ls.take(i + 1).drop_last() =~= ls.take(i as int));
            assert(ls.take(i + 1).last() == ls[i as int]);
        }
        if !line_is_path(&lines[i]) {
            match parse_alias_line(&lines[i]) {
                None => {},
                Some(p) => {
                    let (alias, members) = p;
                    let ghost av = alias@;
                    let ghost mv = members.deep_view();
                    match find_entry(&m, &alias) {
                        Some(k) => {
                            let ghost old_view = m@;
                            proof {
                                lemma_alias_index(old_view, av);
                                match alias_index(old_view, av) {
                                    Some(x) => {
                                        if x < k as int {
                                            assert(old_view[x].0 == old_view[k as int].0);
                                        } else if x > k as int {
                                            assert(old_view[x].0 == old_view[k as int].0);
                                        }
                                        assert(x == k as int);
                                    },
                                    None => {
                                        assert(old_view[k as int].0 == av);
                                    },
                                }
                                assert(alias_index(old_view, av) == Some(k as int));
                            }
                            m.entries[k] = (alias, members);
                            proof {
                                assert(m@ =~= old_view.update(k as int, (old_view[k as int].0, mv)));
                                assert(m@ =~= spec_map_entries(ls.take(i + 1)));
                                lemma_entries_map_update(old_view, k as int, mv);
                            }
                        },
                        None => {
                            let ghost old_view = m@;
                            proof {
                                lemma_alias_index(old_view, av);
                                assert(alias_index(old_view, av) is None);
                            }
                            m.entries.push((alias, members));
                            proof {
                                assert(m@ =~= old_view.push((av, mv)));
                                assert(m@.drop_last() =~= old_view);
                            }
                        },
                    }
                },
            }
        }
        i += 1;
    }
    proof {
        assert(ls.take(lines@.len() as int) =~= ls);
    }
    m
}

/// Whether a line is a repository-path record.
pub fn line_is_path(line: &String) -> (r: bool)
    ensures
        r == is_path_line(line@),
{
    let s = line.as_str();
    s.unicode_len() >= 2 && s.get_char(0) == '#' && s.get_char(1) == ' '
}

/// Split an alias line at its first colon into canonical name and members.
pub fn parse_alias_line(line: &String) -> (r: Option<(String, Vec<String>)>)
    ensures
        match r {
            Some(p) => spec_alias_split(line@) == Some((p.0@, p.1.deep_view())),
            None => spec_alias_split(line@) is None,
        },
{
    let s = line.as_str();
    match find_char(s, ':') {
        None => None,
        Some(i) => {
            proof {
                lemma_find_char_from(line@, ':', 0);
            }
            proof {
                reveal_strlit(", ");
                assert(", "@ =~= comma_space());
            }
            let n = s.unicode_len();
            let alias = s.substring_char(0, i).to_owned();
            let rest = s.substring_char(i + 1, n);
            let members = split_terms(trim_str(rest), ", ");
            Some((alias, members))
        },
    }
}

/// The token before the first colon, or the whole line without one.
pub fn line_first_token(line: &String) -> (r: String)
    ensures
        r@ == first_token(line@),
{
    let s = line.as_str();
    match find_char(s, ':') {
        None => line.clone(),
        Some(i) => {
            proof {
                lemma_find_char_from(line@, ':', 0);
            }
            s.substring_char(0, i).to_owned()
        },
    }
}

/// The members of the last line whose canonical name is `alias`.
pub fn get_names_with_alias(lines: &Vec<String>, alias: &String) -> (r: Vec<String>)
    ensures
        r.deep_view() == spec_names_with(lines.deep_view(), alias@),
{
    let ghost ls = lines.deep_view();
    let mut r: Vec<String> = Vec::new();
    assert(r.deep_view() =~= spec_names_with(ls.take(0), alias@));
    let mut i: usize = 0;
    while i < lines.len()
        invariant
            i <= lines@.len(),
            ls == lines.deep_view(),
            r.deep_view() == spec_names_with(ls.take(i as int), alias@),
        decreases lines@.len() - i,
    {
        proof {
            assert(ls.take(i + 1).drop_last() =~= ls.take(i as int));
            assert(ls.take(i + 1).last() == ls[i as int]);
        }
        match parse_alias_line(&lines[i]) {
            Some(p) => {
                let (a, ms) = p;
                if a.eq(alias) {
                    r = ms;
                } else {
                }
            },
            None => {},
        }
        i += 1;
    }
    proof {
        assert(ls.take(lines@.len() as int) =~= ls);
    }
    r
}

/// Remove every line whose first token is one of `names`. Returns the kept
/// lines and the first tokens of the removed ones, both in store order.
pub fn delete_alias(lines: &Vec<String>, names: &Vec<String>) -> (r: (Vec<String>, Vec<String>))
    ensures
        r.0.deep_view() == spec_delete(lines.deep_view(), names.deep_view()),
        r.1.deep_view() == spec_deleted_tokens(lines.deep_view(), names.deep_view()),
{
    let ghost ls = lines.deep_view();
    let ghost ns = names.deep_view();
    let mut kept: Vec<String> = Vec::new();
    let mut toks: Vec<String> = Vec::new();
    assert(kept.deep_view() =~= spec_delete(ls.take(0), ns));
    assert(toks.deep_view() =~= spec_deleted_tokens(ls.take(0), ns));
    let mut i: usize = 0;
    while i < lines.len()
        invariant
            i <= lines@.len(),
            ls == lines.deep_view(),
            ns == names.deep_view(),
            kept.deep_view() == spec_delete(ls.take(i as int), ns),
            toks.deep_view() == spec_deleted_tokens(ls.take(i as int), ns),
        decreases lines@.len() - i,
    {
        proof {
            assert(ls.take(i + 1).drop_last() =~= ls.take(i as int));
            assert(ls.take(i + 1).last() == ls[i as int]);
        }
        let tok = line_first_token(&lines[i]);
        if vec_has(names, &tok) {
            toks.push(tok);
            assert(toks.deep_view() =~= spec_deleted_tokens(ls.take(i + 1), ns));
        } else {
            kept.push(lines[i].clone());
            assert(kept.deep_view() =~= spec_delete(ls.take(i + 1), ns));
        }
        i += 1;
    }
    proof {
        assert(ls.take(lines@.len() as int) =~= ls);
    }
    (kept, toks)
}

/// The line written for `alias` with member list `members`.
pub fn render_alias_line(alias: &String, members: &Vec<String>) -> (r: String)
    ensures
        r@ == spec_render(alias@, members.deep_view()),
{
    let mut r = alias.clone();
    r.append(": ");
    let joined = crate::text::join_strings(members, ", ");
    r.append(joined.as_str());
    proof {
        reveal_strlit(": ");
        reveal_strlit(", ");
        assert(", "@ =~= comma_space());
        assert(r@ =~= spec_render(alias@, members.deep_view()));
    }
    r
}

/// Add an alias record: the first name is the canonical one, the rest are
/// members; members already stored for that canonical name stay in front.
pub fn add_alias(lines: &Vec<String>, names: &Vec<String>) -> (r: Vec<String>)
    requires
        names@.len() >= 1,
    ensures
        r.deep_view() == spec_add_alias(lines.deep_view(), names.deep_view()),
{
    let ghost ns = names.deep_view();
    let alias = names[0].clone();
    let mut rest: Vec<String> = Vec::new();
    let mut i: usize = 1;
    while i < names.len()
        invariant
            1 <= i <= names@.len(),
            ns == names.deep_view(),
            alias@ == ns[0],
            rest.deep_view() == ns.subrange(1, i as int),
        decreases names@.len() - i,
    {
        let ghost od = rest.deep_view();
        rest.push(names[i].clone());
        assert(rest.deep_view() =~= od.push(ns[i as int]));
        assert(rest.deep_view() =~= ns.subrange(1, i + 1));
        i += 1;
    }
    let prior = get_names_with_alias(lines, &alias);
    if prior.len() > 0 {
        let mut doomed: Vec<String> = Vec::new();
        doomed.push(alias.clone());
        assert(doomed.deep_view() =~= seq![ns[0]]);
        let (mut kept, _) = delete_alias(lines, &doomed);
        let mut merged = prior;
        let mut j: usize = 0;
        let ghost prior_v = merged.deep_view();
        while j < rest.len()
            invariant
                j <= rest@.len(),
                rest.deep_view() == ns.subrange(1, ns.len() as int),
                merged.deep_view() == prior_v + rest.deep_view().take(j as int),
            decreases rest@.len() - j,
        {
            let ghost od = merged.deep_view();
            merged.push(rest[j].clone());
            assert(merged.deep_view() =~= od.push(rest.deep_view()[j as int]));
            assert(merged.deep_view() =~= prior_v + rest.deep_view().take(j + 1));
            j += 1;
        }
        proof {
            assert(rest.deep_view().take(rest@.len() as int) =~= rest.deep_view());
        }
        let ghost kd = kept.deep_view();
        let line = render_alias_line(&alias, &merged);
        kept.push(line);
        assert(kept.deep_view() =~= kd.push(spec_render(ns[0], merged.deep_view())));
        assert(kept.deep_view() =~= spec_add_alias(lines.deep_view(), ns));
        kept
    } else {
        let mut out: Vec<String> = Vec::new();
        let mut k: usize = 0;
        while k < lines.len()
            invariant
                k <= lines@.len(),
                out.deep_view() == lines.deep_view().take(k as int),
            decreases lines@.len() - k,
        {
            let ghost od = out.deep_view();
            out.push(lines[k].clone());
            assert(out.deep_view() =~= od.push(lines.deep_view()[k as int]));
            assert(out.deep_view() =~= lines.deep_view().take(k + 1));
            k += 1;
        }
        proof {
            assert(lines.deep_view().take(lines@.len() as int) =~= lines.deep_view());
        }
        let ghost od = out.deep_view();
        let line = render_alias_line(&alias, &rest);
        out.push(line);
        assert(out.deep_view() =~= od.push(spec_render(ns[0], rest.deep_view())));
        assert(out.deep_view() =~= spec_add_alias(lines.deep_view(), ns));
        out
    }
}

/// The repository path stored in the first line, or empty without one.
pub fn get_path(lines: &Vec<String>) -> (r: String)
    ensures
        r@ == spec_get_path(lines.deep_view()),
{
    let ghost ls = lines.deep_view();
    if lines.len() == 0 {
        return String::new();
    }
    let first = &lines[0];
    if !line_is_path(first) {
        return String::new();
    }
    proof {
        reveal_strlit(" ");
        assert(" "@ =~= seq![' ']);
    }
    let parts = split_terms(first.as_str(), " ");
    proof {
        let line = ls[0];
        assert(line.subrange(1, 2) =~= seq![' ']);
        assert(crate::text::matches_at(line, seq![' '], 1));
        crate::text::lemma_find_from(line, seq![' '], 0);
        assert(crate::text::find_from(line, seq![' '], 0) is Some);
        let j = crate::text::find_from(line, seq![' '], 0)->Some_0;
        assert(spec_split(line, seq![' ']) == seq![line.subrange(0, j)] + spec_split(
            line.subrange(j + 1, line.len() as int),
            seq![' '],
        ));
        lemma_split_len(line.subrange(j + 1, line.len() as int), seq![' ']);
        assert(parts.deep_view().len() >= 2);
    }
    parts[1].clone()
}

/// A split has at least one piece.
pub proof fn lemma_split_len(s: Seq<char>, sep: Seq<char>)
    requires
        sep.len() > 0,
    ensures
        spec_split(s, sep).len() >= 1,
{
    if crate::text::find_from(s, sep, 0) is Some {
    }
}

/// Why a set-path request was refused: no path given, or more than one.
#[derive(PartialEq, Eq, Structural, Clone, Copy, Debug)]
pub enum PathArgError {
    Missing,
    Extra,
}

/// Set the repository-path record to `args[0]`. Exactly one argument must
/// be given; otherwise the store is left alone and the error says which way
/// the count was off.
pub fn set_path(lines: &Vec<String>, args: &Vec<String>) -> (r: Result<Vec<String>, PathArgError>)
    ensures
        match r {
            Ok(out) => args@.len() == 1 && out.deep_view() == spec_set_path(
                lines.deep_view(),
                args.deep_view()[0],
            ),
            Err(e) => args@.len() != 1 && ((e is Missing) <==> args@.len() == 0),
        },
{
    let ghost ls = lines.deep_view();
    if args.len() == 0 {
        return Err(PathArgError::Missing);
    }
    if args.len() > 1 {
        return Err(PathArgError::Extra);
    }
    let mut pl = String::new();
    pl.append("# ");
    pl.append(args[0].as_str());
    proof {
        reveal_strlit("# ");
        assert(pl@ =~= seq!['#', ' '] + args.deep_view()[0]);
    }
    let mut out: Vec<String> = Vec::new();
    if lines.len() > 0 && line_is_path(&lines[0]) {
        let mut k: usize = 0;
        while k < lines.len()
            invariant
                k <= lines@.len(),
                ls == lines.deep_view(),
                out.deep_view() == ls.take(k as int),
            decreases lines@.len() - k,
        {
            let ghost od = out.deep_view();
            out.push(lines[k].clone());
            assert(out.deep_view() =~= od.push(ls[k as int]));
            assert(out.deep_view() =~= ls.take(k + 1));
            k += 1;
        }
        proof {
            assert(ls.take(lines@.len() as int) =~= ls);
        }
        let ghost od = out.deep_view();
        out[0] = pl;
        assert(out.deep_view() =~= od.update(0, seq!['#', ' '] + args.deep_view()[0]));
        assert(out.deep_view() =~= spec_set_path(ls, args.deep_view()[0]));
    } else {
        out.push(pl);
        assert(out.deep_view() =~= seq![seq!['#', ' '] + args.deep_view()[0]] + ls.take(0));
        let mut k: usize = 0;
        while k < lines.len()
            invariant
                k <= lines@.len(),
                ls == lines.deep_view(),
                out.deep_view() == seq![seq!['#', ' '] + args.deep_view()[0]] + ls.take(k as int),
            decreases lines@.len() - k,
        {
            let ghost od = out.deep_view();
            out.push(lines[k].clone());
            assert(out.deep_view() =~= od.push(ls[k as int]));
            assert(out.deep_view() =~= seq![seq!['#', ' '] + args.deep_view()[0]] + ls.take(k + 1));
            k += 1;
        }
        proof {
            assert(ls.take(lines@.len() as int) =~= ls);
            assert(out.deep_view() =~= spec_set_path(ls, args.deep_view()[0]));
        }
    }
    Ok(out)
}

/// A canonical name that renders and parses back cleanly: it holds no colon
/// and is not shaped like a path record.
pub open spec fn valid_canonical(c: Seq<char>) -> bool {
    (forall|i: int| 0 <= i < c.len() ==> c[i] != ':') && !(c.len() >= 2 && c[0] == '#' && c[1]
        == ' ')
}

/// A member list that renders and parses back cleanly: at least one member,
/// none containing the separator, and the list neither starting nor ending
/// with whitespace or emptiness, which trimming would eat.
pub open spec fn valid_members(ms: Seq<Seq<char>>) -> bool {
    ms.len() >= 1 && (forall|k: int|
        0 <= k < ms.len() ==> !spec_contains(#[trigger] ms[k], comma_space())) && ms[0].len() >= 1
        && !is_wspace(ms[0][0]) && ms.last().len() >= 1 && !is_wspace(ms.last().last())
}

/// Trimming a single leading space off a string whose own ends hold no
/// whitespace gives the string back.
proof fn lemma_trim_one_space(x: Seq<char>)
    requires
        x.len() >= 1,
        !is_wspace(x[0]),
        !is_wspace(x.last()),
    ensures
        spec_trim(seq![' '] + x) == x,
{
    let s = seq![' '] + x;
    assert(is_wspace(s[0]));
    assert(s[1] == x[0]);
    assert(ws_prefix_end(s, 1) == 1);
    assert(ws_prefix_end(s, 0) == 1);
    assert(s[s.len() - 1] == x.last());
    assert(ws_suffix_start(s, s.len() as int) == s.len());
    assert(spec_trim(s) =~= x);
}

/// A canonical name no line splits to resolves to no members.
pub proof fn lemma_names_with_absent(lines: Seq<Seq<char>>, alias: Seq<char>)
    requires
        forall|i: int|
            0 <= i < lines.len() ==> match spec_alias_split(#[trigger] lines[i]) {
                Some(p) => p.0 != alias,
                None => true,
            },
    ensures
        spec_names_with(lines, alias) == Seq::<Seq<char>>::empty(),
    decreases lines.len(),
{
    if lines.len() > 0 {
        let front = lines.drop_last();
        assert(lines[lines.len() - 1] == lines.last());
        assert forall|i: int|
            0 <= i < front.len() implies match spec_alias_split(#[trigger] front[i]) {
            Some(p) => p.0 != alias,
            None => true,
        } by {
            assert(front[i] == lines[i]);
        }
        lemma_names_with_absent(front, alias);
    }
}

/// A rendered alias line is no path record, and parses back to exactly its
/// canonical name and member list.
pub proof fn lemma_render_parses(c: Seq<char>, ms: Seq<Seq<char>>)
    requires
        valid_canonical(c),
        valid_members(ms),
    ensures
        !is_path_line(spec_render(c, ms)),
        spec_alias_split(spec_render(c, ms)) == Some((c, ms)),
{
    let line = spec_render(c, ms);
    let sep = comma_space();
    let j = spec_join(ms, sep);
    let k = c.len() as int;
    lemma_join_ends(ms, sep);
    assert forall|t: int| 0 <= t < line.len() implies line[t] == (if t < k {
        c[t]
    } else if t == k {
        ':'
    } else if t == k + 1 {
        ' '
    } else {
        j[t - k - 2]
    }) by {}
    assert(!is_path_line(line)) by {
        if is_path_line(line) {
            if k == 0 {
                assert(line[0] == ':');
            } else if k == 1 {
                assert(line[1] == ':');
            } else {
                assert(line[0] == c[0] && line[1] == c[1]);
            }
        }
    }
    lemma_find_char_from(line, ':', 0);
    match find_char_from(line, ':', 0) {
        None => {
            assert(line[k] == ':');
            assert(false);
        },
        Some(x) => {
            assert(line[k] == ':');
            assert(!(x > k));
            assert(!(x < k)) by {
                if x < k {
                    assert(line[x] == c[x]);
                }
            }
            assert(x == k);
            assert(line.subrange(0, k) =~= c);
            let after = line.subrange(k + 1, line.len() as int);
            assert(after =~= seq![' '] + j);
            lemma_trim_one_space(j);
            assert(sep[0] != sep[1]);
            lemma_split_join(ms, sep);
            assert(spec_members(after) == ms);
        },
    }
}

/// Round trip: an alias record added under a canonical name no store line
/// holds is read back by the store mapping exactly, members in order.
pub proof fn lemma_add_alias_round_trip(
    lines: Seq<Seq<char>>,
    canonical: Seq<char>,
    members: Seq<Seq<char>>,
)
    requires
        valid_canonical(canonical),
        valid_members(members),
        forall|i: int|
            0 <= i < lines.len() ==> match spec_alias_split(#[trigger] lines[i]) {
                Some(p) => p.0 != canonical,
                None => true,
            },
    ensures
        spec_get_map(spec_add_alias(lines, seq![canonical] + members)) == spec_get_map(
            lines,
        ).insert(canonical, members),
{
    let names = seq![canonical] + members;
    assert(names[0] == canonical);
    assert(names.subrange(1, names.len() as int) =~= members);
    lemma_names_with_absent(lines, canonical);
    let out = spec_add_alias(lines, names);
    assert(out == lines.push(spec_render(canonical, members)));
    lemma_render_parses(canonical, members);
    assert(out.drop_last() =~= lines);
    assert(out.last() == spec_render(canonical, members));
}

/// Merge-add: adding members under a canonical name that already resolves
/// removes its old lines and maps it to the old members followed by the new
/// ones, concatenated without deduplication.
pub proof fn lemma_add_alias_merge(
    lines: Seq<Seq<char>>,
    canonical: Seq<char>,
    members: Seq<Seq<char>>,
)
    requires
        valid_canonical(canonical),
        spec_names_with(lines, canonical).len() > 0,
        valid_members(spec_names_with(lines, canonical) + members),
    ensures
        spec_get_map(spec_add_alias(lines, seq![canonical] + members)) == spec_get_map(
            spec_delete(lines, seq![canonical]),
        ).insert(canonical, spec_names_with(lines, canonical) + members),
{
    let names = seq![canonical] + members;
    assert(names[0] == canonical);
    assert(names.subrange(1, names.len() as int) =~= members);
    let prior = spec_names_with(lines, canonical);
    let kept = spec_delete(lines, seq![canonical]);
    let out = spec_add_alias(lines, names);
    assert(out == kept.push(spec_render(canonical, prior + members)));
    lemma_render_parses(canonical, prior + members);
    assert(out.drop_last() =~= kept);
    assert(out.last() == spec_render(canonical, prior + members));
}

/// Deletion preserves the path record: when the path line's first token is
/// not a doomed name, it stays the first line of the store.
pub proof fn lemma_delete_keeps_path(lines: Seq<Seq<char>>, names: Seq<Seq<char>>)
    requires
        lines.len() > 0,
        !seq_has(names, first_token(lines[0])),
    ensures
        spec_delete(lines, names).len() > 0,
        spec_delete(lines, names)[0] == lines[0],
    decreases lines.len(),
{
    if lines.len() == 1 {
        assert(lines.drop_last().len() == 0);
        assert(lines.last() == lines[0]);
    } else {
        let front = lines.drop_last();
        assert(front[0] == lines[0]);
        lemma_delete_keeps_path(front, names);
    }
}

} // verus!
