//! The run configuration: named filter toggles with their argument lists,
//! grown from flag characters and their trailing argument lists, and the
//! dispatch of config-editing flag characters to store operations.

use crate::text::{parse_i64, parse_i64_spec};
use crate::{DAYS, HOURS, MONTHS, WEEKS, YEARS};
use vstd::prelude::*;

verus! {

/// The filter toggles and their arguments, as one named record.
pub struct FilterConfig {
    /// Credit only canonical names from the alias store; no raw-author
    /// fallback.
    pub exclusive: bool,
    /// The repository path was given on the run itself.
    pub manual_path: bool,
    /// Skip the alias store when resolving identities.
    pub ignore_config: bool,
    /// Keep only commits whose header contains a keyword.
    pub keyword_filter: bool,
    /// Keep only commits matching a case-insensitive search term.
    pub ci_search: bool,
    /// Resolve identities from bracketed name lists in commit headers.
    pub autogenerate: bool,
    /// Drop candidate identities named in the exclusion list.
    pub exclude: bool,
    /// Keep only commits matching a case-sensitive search term.
    pub search: bool,
    /// Branch filtering; accepted but unused.
    pub branch_filter: bool,
    /// Keep only commits younger than the time budget.
    pub time_window: bool,
    /// Keyword-filter terms, matched against headers.
    pub keywords: Vec<String>,
    /// Case-insensitive search terms.
    pub ci_terms: Vec<String>,
    /// Case-sensitive search terms.
    pub search_terms: Vec<String>,
    /// Names whose credits are dropped.
    pub excluded: Vec<String>,
    /// Branch names; accepted but unused.
    pub branches: Vec<String>,
    /// The time budget in seconds.
    pub time_seconds: i64,
    /// The repository path to read.
    pub path: String,
}

/// The mathematical value of a [`FilterConfig`].
pub ghost struct FilterView {
    pub exclusive: bool,
    pub manual_path: bool,
    pub ignore_config: bool,
    pub keyword_filter: bool,
    pub ci_search: bool,
    pub autogenerate: bool,
    pub exclude: bool,
    pub search: bool,
    pub branch_filter: bool,
    pub time_window: bool,
    pub keywords: Seq<Seq<char>>,
    pub ci_terms: Seq<Seq<char>>,
    pub search_terms: Seq<Seq<char>>,
    pub excluded: Seq<Seq<char>>,
    pub branches: Seq<Seq<char>>,
    pub time_seconds: int,
    pub path: Seq<char>,
}

impl View for FilterConfig {
    type V = FilterView;

    open spec fn view(&self) -> FilterView {
        FilterView {
            exclusive: self.exclusive,
            manual_path: self.manual_path,
            ignore_config: self.ignore_config,
            keyword_filter: self.keyword_filter,
            ci_search: self.ci_search,
            autogenerate: self.autogenerate,
            exclude: self.exclude,
            search: self.search,
            branch_filter: self.branch_filter,
            time_window: self.time_window,
            keywords: self.keywords.deep_view(),
            ci_terms: self.ci_terms.deep_view(),
            search_terms: self.search_terms.deep_view(),
            excluded: self.excluded.deep_view(),
            branches: self.branches.deep_view(),
            time_seconds: self.time_seconds as int,
            path: self.path@,
        }
    }
}

/// A configuration with every toggle off and every list empty.
pub open spec fn spec_default_config() -> FilterView {
    FilterView {
        exclusive: false,
        manual_path: false,
        ignore_config: false,
        keyword_filter: false,
        ci_search: false,
        autogenerate: false,
        exclude: false,
        search: false,
        branch_filter: false,
        time_window: false,
        keywords: Seq::empty(),
        ci_terms: Seq::empty(),
        search_terms: Seq::empty(),
        excluded: Seq::empty(),
        branches: Seq::empty(),
        time_seconds: 0,
        path: Seq::empty(),
    }
}

impl FilterConfig {
    /// The starting configuration: every toggle off, every list empty.
    pub fn new() -> (c: FilterConfig)
        ensures
            c@ == spec_default_config(),
    {
        let c = FilterConfig {
            exclusive: false,
            manual_path: false,
            ignore_config: false,
            keyword_filter: false,
            ci_search: false,
            autogenerate: false,
            exclude: false,
            search: false,
            branch_filter: false,
            time_window: false,
            keywords: Vec::new(),
            ci_terms: Vec::new(),
            search_terms: Vec::new(),
            excluded: Vec::new(),
            branches: Vec::new(),
            time_seconds: 0,
            path: String::new(),
        };
        proof {
            assert(c.keywords.deep_view() =~= Seq::<Seq<char>>::empty());
            assert(c.ci_terms.deep_view() =~= Seq::<Seq<char>>::empty());
            assert(c.search_terms.deep_view() =~= Seq::<Seq<char>>::empty());
            assert(c.excluded.deep_view() =~= Seq::<Seq<char>>::empty());
            assert(c.branches.deep_view() =~= Seq::<Seq<char>>::empty());
        }
        c
    }
}

/// A flag that only flips a toggle and takes no arguments.
pub open spec fn is_mode_flag(f: char) -> bool {
    f == 'X' || f == 'I' || f == 'A'
}

/// A flag that consumes the trailing argument list; only the first such
/// flag of a group acts.
pub open spec fn is_args_flag(f: char) -> bool {
    f == 'P' || f == 'F' || f == 'E' || f == 'S' || f == 'C' || f == 'B' || f == 'T'
}

/// Every character is a known flag and at most one of them consumes the
/// arguments; anything else aborts the run.
pub open spec fn valid_flags(flags: Seq<char>) -> bool {
    (forall|i: int|
        0 <= i < flags.len() ==> is_mode_flag(#[trigger] flags[i]) || is_args_flag(flags[i]))
        && (forall|i: int, j: int|
        0 <= i < j < flags.len() ==> !(is_args_flag(#[trigger] flags[i]) && is_args_flag(
            #[trigger] flags[j],
        )))
}

/// A recognized time-unit token.
pub open spec fn is_valid_unit(u: Seq<char>) -> bool {
    u == seq!['h'] || u == seq!['d'] || u == seq!['w'] || u == seq!['m'] || u == seq!['y']
}

/// Seconds per time unit; an unrecognized token counts zero seconds, which
/// makes the time window admit almost nothing.
pub open spec fn spec_unit_seconds(u: Seq<char>) -> int {
    if u == seq!['h'] {
        HOURS as int
    } else if u == seq!['d'] {
        DAYS as int
    } else if u == seq!['w'] {
        WEEKS as int
    } else if u == seq!['m'] {
        MONTHS as int
    } else if u == seq!['y'] {
        YEARS as int
    } else {
        0
    }
}

/// Seconds per time unit, with an unrecognized token counting zero.
pub fn unit_seconds(u: &String) -> (r: (i64, bool))
    ensures
        r.0 as int == spec_unit_seconds(u@),
        r.1 == is_valid_unit(u@),
{
    let s = u.as_str();
    if s.unicode_len() == 1 {
        let c = s.get_char(0);
        proof {
            assert(u@ =~= seq![u@[0]]);
        }
        match c {
            'h' => (HOURS, true),
            'd' => (DAYS, true),
            'w' => (WEEKS, true),
            'm' => (MONTHS, true),
            'y' => (YEARS, true),
            _ => {
                assert(!is_valid_unit(u@));
                (0, false)
            },
        }
    } else {
        assert(!is_valid_unit(u@));
        (0, false)
    }
}

/// A diagnostic the option parser reports without stopping.
#[derive(PartialEq, Eq, Structural, Clone, Copy, Debug)]
pub enum OptionNotice {
    /// A path flag came with no path.
    MissingPath,
    /// A path flag came with more than one argument.
    ExtraPathArgs,
    /// A time flag needs exactly a count and a unit.
    TimeArgCount,
    /// The time unit token is not recognized.
    BadTimeUnit,
}

/// One flag character applied to a configuration, with the diagnostics it
/// reports. Only the result's configuration part is used for mode flags.
pub open spec fn apply_flag(cfg: FilterView, f: char, args: Seq<Seq<char>>) -> (
    FilterView,
    Seq<OptionNotice>,
) {
    if f == 'X' {
        (FilterView { exclusive: true, ..cfg }, Seq::empty())
    } else if f == 'I' {
        (FilterView { ignore_config: true, ..cfg }, Seq::empty())
    } else if f == 'A' {
        (FilterView { autogenerate: true, ..cfg }, Seq::empty())
    } else if f == 'P' {
        let c = FilterView { manual_path: true, ..cfg };
        if args.len() == 0 {
            (c, seq![OptionNotice::MissingPath])
        } else if args.len() == 1 {
            (FilterView { path: args[0], ..c }, Seq::empty())
        } else {
            (c, seq![OptionNotice::ExtraPathArgs])
        }
    } else if f == 'F' {
        (FilterView { keyword_filter: true, keywords: cfg.keywords + args, ..cfg }, Seq::empty())
    } else if f == 'E' {
        (FilterView { exclude: true, excluded: cfg.excluded + args, ..cfg }, Seq::empty())
    } else if f == 'S' {
        (FilterView { search: true, search_terms: cfg.search_terms + args, ..cfg }, Seq::empty())
    } else if f == 'C' {
        (FilterView { ci_search: true, ci_terms: cfg.ci_terms + args, ..cfg }, Seq::empty())
    } else if f == 'B' {
        (FilterView { branch_filter: true, branches: cfg.branches + args, ..cfg }, Seq::empty())
    } else if f == 'T' {
        let c = FilterView { time_window: true, ..cfg };
        if args.len() != 2 {
            (c, seq![OptionNotice::TimeArgCount])
        } else {
            let v = parse_i64_spec(args[0])->Some_0;
            let budget = FilterView { time_seconds: v * spec_unit_seconds(args[1]), ..c };
            if is_valid_unit(args[1]) {
                (budget, Seq::empty())
            } else {
                (budget, seq![OptionNotice::BadTimeUnit])
            }
        }
    } else {
        (cfg, Seq::empty())
    }
}

/// A flag group folded over a configuration: mode flags always act, and the
/// first argument-taking flag consumes the argument list.
pub open spec fn spec_enable(
    cfg: FilterView,
    flags: Seq<char>,
    args: Seq<Seq<char>>,
    used: bool,
) -> (FilterView, Seq<OptionNotice>)
    decreases flags.len(),
{
    if flags.len() == 0 {
        (cfg, Seq::empty())
    } else {
        let f = flags[0];
        let rest = flags.subrange(1, flags.len() as int);
        if is_mode_flag(f) {
            spec_enable(apply_flag(cfg, f, args).0, rest, args, used)
        } else if !used {
            let step = apply_flag(cfg, f, args);
            let tail = spec_enable(step.0, rest, args, true);
            (tail.0, step.1 + tail.1)
        } else {
            spec_enable(cfg, rest, args, used)
        }
    }
}

/// The time flag's arguments parse whenever they will be used: the count is
/// a decimal integer and the budget it makes fits in seconds.
pub open spec fn time_args_ok(flags: Seq<char>, args: Seq<Seq<char>>) -> bool {
    ((exists|i: int| 0 <= i < flags.len() && #[trigger] flags[i] == 'T') && args.len() == 2)
        ==> (parse_i64_spec(args[0]) is Some && i64::MIN <= (parse_i64_spec(args[0])->Some_0)
        * spec_unit_seconds(args[1]) <= i64::MAX)
}

/// Push clones of the strings of `src` onto `dst`.
fn append_strings(dst: &mut Vec<String>, src: &Vec<String>)
    ensures
        final(dst).deep_view() == old(dst).deep_view() + src.deep_view(),
{
    let ghost base = dst.deep_view();
    let mut j: usize = 0;
    proof {
        assert(dst.deep_view() =~= base + src.deep_view().take(0));
    }
    while j < src.len()
        invariant
            j <= src@.len(),
            dst.deep_view() == base + src.deep_view().take(j as int),
        decreases src@.len() - j,
    {
        let ghost od = dst.deep_view();
        dst.push(src[j].clone());
        assert(dst.deep_view() =~= od.push(src.deep_view()[j as int]));
        assert(dst.deep_view() =~= base + src.deep_view().take(j + 1));
        j += 1;
    }
    proof {
        assert(src.deep_view().take(src@.len() as int) =~= src.deep_view());
    }
}

/// Whether `f` takes the argument list.
fn args_flag(f: char) -> (r: bool)
    ensures
        r == is_args_flag(f),
{
    f == 'P' || f == 'F' || f == 'E' || f == 'S' || f == 'C' || f == 'B' || f == 'T'
}

/// Apply one flag character, appending its diagnostics to `notes`.
#[verifier::rlimit(50)]
fn apply_flag_once(
    f: char,
    new_args: &Vec<String>,
    config: &mut FilterConfig,
    notes: &mut Vec<OptionNotice>,
)
    requires
        is_mode_flag(f) || is_args_flag(f),
        f == 'T' && new_args@.len() == 2 ==> parse_i64_spec(new_args.deep_view()[0]) is Some
            && i64::MIN <= (parse_i64_spec(new_args.deep_view()[0])->Some_0) * spec_unit_seconds(
            new_args.deep_view()[1],
        ) <= i64::MAX,
    ensures
        final(config)@ == apply_flag(old(config)@, f, new_args.deep_view()).0,
        final(notes)@ == old(notes)@ + apply_flag(old(config)@, f, new_args.deep_view()).1,
{
    let ghost args = new_args.deep_view();
    let ghost before = config@;
    let ghost notes0 = notes@;
    if f == 'X' {
        config.exclusive = true;
    } else if f == 'I' {
        config.ignore_config = true;
    } else if f == 'A' {
        config.autogenerate = true;
    } else if f == 'P' {
        config.manual_path = true;
        if new_args.len() == 0 {
            notes.push(OptionNotice::MissingPath);
        } else if new_args.len() == 1 {
            config.path = new_args[0].clone();
        } else {
            notes.push(OptionNotice::ExtraPathArgs);
        }
    } else if f == 'F' {
        config.keyword_filter = true;
        append_strings(&mut config.keywords, new_args);
    } else if f == 'E' {
        config.exclude = true;
        append_strings(&mut config.excluded, new_args);
    } else if f == 'S' {
        config.search = true;
        append_strings(&mut config.search_terms, new_args);
    } else if f == 'C' {
        config.ci_search = true;
        append_strings(&mut config.ci_terms, new_args);
    } else if f == 'B' {
        config.branch_filter = true;
        append_strings(&mut config.branches, new_args);
    } else {
        assert(f == 'T');
        config.time_window = true;
        if new_args.len() != 2 {
            notes.push(OptionNotice::TimeArgCount);
        } else {
            let u = unit_seconds(&new_args[1]);
            if !u.1 {
                notes.push(OptionNotice::BadTimeUnit);
            }
            let v = match parse_i64(new_args[0].as_str()) {
                Some(x) => x,
                None => {
                    proof {
                        assert(false);
                    }
                    0
                },
            };
            config.time_seconds = v * u.0;
        }
    }
    proof {
        assert(config@ == apply_flag(before, f, args).0);
        assert(notes@ =~= notes0 + apply_flag(before, f, args).1);
    }
}

/// Apply one flag group with its trailing arguments to the configuration.
/// Returns the diagnostics to print, in order.
pub fn enable_options(flags: &String, new_args: &Vec<String>, config: &mut FilterConfig) -> (notes:
    Vec<OptionNotice>)
    requires
        valid_flags(flags@),
        time_args_ok(flags@, new_args.deep_view()),
    ensures
        final(config)@ == spec_enable(old(config)@, flags@, new_args.deep_view(), false).0,
        notes@ == spec_enable(old(config)@, flags@, new_args.deep_view(), false).1,
{
    let ghost args = new_args.deep_view();
    let ghost start = config@;
    let ghost fs = flags@;
    let mut notes: Vec<OptionNotice> = Vec::new();
    let mut used = false;
    let n = flags.as_str().unicode_len();
    let mut i: usize = 0;
    proof {
        assert(fs.subrange(0, fs.len() as int) =~= fs);
        assert(notes@ =~= Seq::<OptionNotice>::empty());
        assert(Seq::<OptionNotice>::empty() + spec_enable(config@, fs, args, used).1 =~= spec_enable(
            config@,
            fs,
            args,
            used,
        ).1);
    }
    while i < n
        invariant
            i <= n,
            n == fs.len(),
            fs == flags@,
            args == new_args.deep_view(),
            valid_flags(fs),
            time_args_ok(fs, args),
            used == exists|j: int| 0 <= j < i && is_args_flag(#[trigger] fs[j]),
            spec_enable(start, fs, args, false).0 == spec_enable(
                config@,
                fs.subrange(i as int, fs.len() as int),
                args,
                used,
            ).0,
            spec_enable(start, fs, args, false).1 == notes@ + spec_enable(
                config@,
                fs.subrange(i as int, fs.len() as int),
                args,
                used,
            ).1,
        decreases n - i,
    {
        let f = flags.as_str().get_char(i);
        let ghost before = config@;
        let ghost notes0 = notes@;
        let ghost sub = fs.subrange(i as int, fs.len() as int);
        proof {
            assert(sub[0] == fs[i as int]);
            assert(sub.subrange(1, sub.len() as int) =~= fs.subrange(i + 1, fs.len() as int));
        }
        if args_flag(f) {
            if used {
                proof {
                    let j = choose|j: int| 0 <= j < i && is_args_flag(#[trigger] fs[j]);
                    assert(is_args_flag(fs[j]) && is_args_flag(fs[i as int]));
                    assert(false);
                }
            }
            proof {
                if f == 'T' && new_args@.len() == 2 {
                    assert(fs[i as int] == 'T');
                }
            }
            apply_flag_once(f, new_args, config, &mut notes);
            used = true;
            proof {
                let step = apply_flag(before, f, args);
                let tail = spec_enable(config@, sub.subrange(1, sub.len() as int), args, true);
                assert(spec_enable(before, sub, args, false) == (tail.0, step.1 + tail.1));
                assert(notes0 + (step.1 + tail.1) =~= (notes0 + step.1) + tail.1);
            }
        } else {
            assert(is_mode_flag(f));
            apply_flag_once(f, new_args, config, &mut notes);
            proof {
                assert(apply_flag(before, f, args).1 =~= Seq::<OptionNotice>::empty());
                assert(notes@ =~= notes0);
            }
        }
        i += 1;
    }
    proof {
        assert(fs.subrange(fs.len() as int, fs.len() as int) =~= Seq::<char>::empty());
        assert(notes@ + Seq::<OptionNotice>::empty() =~= notes@);
    }
    notes
}

/// A config-editing operation decided from one flag character.
#[derive(PartialEq, Eq, Structural, Clone, Copy, Debug)]
pub enum ConfigOp {
    /// Delete the store file.
    Reset,
    /// Remove the named alias records.
    Delete,
    /// Add an alias record from the arguments.
    Add,
    /// Set the repository-path record.
    SetPath,
    /// An unrecognized or doubled flag, reported and skipped.
    Invalid(char),
}

/// The operations a config-editing flag string asks for: `r` resets, `g` is
/// reserved and ignored, and of the argument-taking flags `d`, `a` and `p`
/// only the first acts; anything else is reported as invalid.
pub open spec fn spec_config_ops(flags: Seq<char>, used: bool) -> Seq<ConfigOp>
    decreases flags.len(),
{
    if flags.len() == 0 {
        Seq::empty()
    } else {
        let f = flags[0];
        let rest = flags.subrange(1, flags.len() as int);
        if f == 'r' {
            seq![ConfigOp::Reset] + spec_config_ops(rest, used)
        } else if f == 'g' {
            spec_config_ops(rest, used)
        } else if f == 'd' && !used {
            seq![ConfigOp::Delete] + spec_config_ops(rest, true)
        } else if f == 'a' && !used {
            seq![ConfigOp::Add] + spec_config_ops(rest, true)
        } else if f == 'p' && !used {
            seq![ConfigOp::SetPath] + spec_config_ops(rest, true)
        } else {
            seq![ConfigOp::Invalid(f)] + spec_config_ops(rest, used)
        }
    }
}

/// Decide which config-editing operations a flag string asks for.
pub fn process_flags(flags: &String) -> (ops: Vec<ConfigOp>)
    ensures
        ops@ == spec_config_ops(flags@, false),
{
    let ghost fs = flags@;
    let mut ops: Vec<ConfigOp> = Vec::new();
    let mut used = false;
    let n = flags.as_str().unicode_len();
    let mut i: usize = 0;
    proof {
        assert(fs.subrange(0, fs.len() as int) =~= fs);
        assert(Seq::<ConfigOp>::empty() + spec_config_ops(fs, used) =~= spec_config_ops(fs, used));
    }
    while i < n
        invariant
            i <= n,
            n == fs.len(),
            fs == flags@,
            spec_config_ops(fs, false) == ops@ + spec_config_ops(
                fs.subrange(i as int, fs.len() as int),
                used,
            ),
        decreases n - i,
    {
        let f = flags.as_str().get_char(i);
        let ghost sub = fs.subrange(i as int, fs.len() as int);
        proof {
            assert(sub[0] == fs[i as int]);
            assert(sub.subrange(1, sub.len() as int) =~= fs.subrange(i + 1, fs.len() as int));
        }
        if f == 'r' {
            ops.push(ConfigOp::Reset);
        } else if f == 'g' {
        } else if f == 'd' && !used {
            used = true;
            ops.push(ConfigOp::Delete);
        } else if f == 'a' && !used {
            used = true;
            ops.push(ConfigOp::Add);
        } else if f == 'p' && !used {
            used = true;
            ops.push(ConfigOp::SetPath);
        } else {
            ops.push(ConfigOp::Invalid(f));
        }
        i += 1;
    }
    proof {
        assert(fs.subrange(fs.len() as int, fs.len() as int) =~= Seq::<char>::empty());
        assert(ops@ + Seq::<ConfigOp>::empty() =~= ops@);
    }
    ops
}

} // verus!
