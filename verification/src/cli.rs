//! The traffic monitor's command line and configuration decisions.

use vstd::prelude::*;

use crate::text::{char_is_whitespace, chars_of, push_char, string_views, white_space};

verus! {

/// Where the event log goes when nothing else is configured.
pub const DEFAULT_DB_PATH: &'static str = "./wirelux_log.db";

/// How processing the command line ends.
#[derive(Debug, PartialEq, Eq, Structural)]
pub enum CliOutcome {
    /// All arguments were understood: start monitoring.
    Run,
    /// `-h` or `--help`: print usage and exit successfully.
    Help,
    /// `--out` was the last argument: report it and exit with failure.
    MissingOutPath,
    /// An argument that is not an option: print usage and exit with failure.
    UnknownArgument,
}

/// What the command line asks for: the paths to record in the configuration
/// file, in order, and how processing ends after those writes.
pub struct CliPlan {
    pub config_writes: Vec<String>,
    pub outcome: CliOutcome,
}

/// The plan for the arguments after the program name.
pub open spec fn cli_plan(args: Seq<Seq<char>>) -> (Seq<Seq<char>>, CliOutcome)
    decreases args.len(),
{
    if args.len() == 0 {
        (Seq::empty(), CliOutcome::Run)
    } else if args[0] == "--out"@ {
        if args.len() == 1 {
            (Seq::empty(), CliOutcome::MissingOutPath)
        } else {
            let rest = cli_plan(args.skip(2));
            (seq![args[1]] + rest.0, rest.1)
        }
    } else if args[0] == "-h"@ || args[0] == "--help"@ {
        (Seq::empty(), CliOutcome::Help)
    } else {
        (Seq::empty(), CliOutcome::UnknownArgument)
    }
}

/// Reads the command line (the arguments after the program name).
pub fn plan_cli(args: &Vec<String>) -> (plan: CliPlan)
    ensures
        string_views(plan.config_writes@) == cli_plan(string_views(args@)).0,
        plan.outcome == cli_plan(string_views(args@)).1,
{
    let ghost a = string_views(args@);
    let out_flag = String::from_str("--out");
    let short_help = String::from_str("-h");
    let long_help = String::from_str("--help");
    let mut writes: Vec<String> = Vec::new();
    let mut i: usize = 0;
    proof {
        assert(a.skip(0) =~= a);
        assert(string_views(writes@) + cli_plan(a).0 =~= cli_plan(a).0);
    }
    while i < args.len()
        invariant
            i <= args@.len(),
            a == string_views(args@),
            out_flag@ == "--out"@,
            short_help@ == "-h"@,
            long_help@ == "--help"@,
            cli_plan(a) == (string_views(writes@) + cli_plan(a.skip(i as int)).0, cli_plan(a.skip(i as int)).1),
        decreases args@.len() - i,
    {
        let ghost rest = a.skip(i as int);
        assert(rest[0] == a[i as int]);
        if args[i] == out_flag {
            if i + 1 == args.len() {
                proof {
                    assert(rest.len() == 1);
                    assert(string_views(writes@) + Seq::<Seq<char>>::empty() =~= string_views(writes@));
                }
                return CliPlan { config_writes: writes, outcome: CliOutcome::MissingOutPath };
            }
            let path = args[i + 1].clone();
            proof {
                assert(rest[1] == a[i + 1]);
                assert(rest.skip(2) =~= a.skip(i + 2));
                let ww = string_views(writes@.push(path));
                assert(ww =~= string_views(writes@).push(a[i + 1]));
                assert(string_views(writes@) + (seq![a[i + 1]] + cli_plan(a.skip(i + 2)).0) =~= ww + cli_plan(a.skip(i + 2)).0);
            }
            writes.push(path);
            i = i + 2;
        } else if args[i] == short_help || args[i] == long_help {
            proof {
                assert(string_views(writes@) + Seq::<Seq<char>>::empty() =~= string_views(writes@));
            }
            return CliPlan { config_writes: writes, outcome: CliOutcome::Help };
        } else {
            proof {
                assert(string_views(writes@) + Seq::<Seq<char>>::empty() =~= string_views(writes@));
            }
            return CliPlan { config_writes: writes, outcome: CliOutcome::UnknownArgument };
        }
    }
    proof {
        assert(a.skip(i as int) =~= Seq::<Seq<char>>::empty());
        assert(string_views(writes@) + Seq::<Seq<char>>::empty() =~= string_views(writes@));
    }
    CliPlan { config_writes: writes, outcome: CliOutcome::Run }
}

/// `s` without its leading white space.
pub open spec fn trim_start(s: Seq<char>) -> Seq<char>
    decreases s.len(),
{
    if s.len() > 0 && white_space(s[0]) {
        trim_start(s.drop_first())
    } else {
        s
    }
}

/// `s` without its trailing white space.
pub open spec fn trim_end(s: Seq<char>) -> Seq<char>
    decreases s.len(),
{
    if s.len() > 0 && white_space(s.last()) {
        trim_end(s.drop_last())
    } else {
        s
    }
}

/// `s` without surrounding white space (`str::trim`).
pub open spec fn trim(s: Seq<char>) -> Seq<char> {
    trim_end(trim_start(s))
}

/// The text before the first line feed (all of `s` when there is none).
pub open spec fn first_line(s: Seq<char>) -> Seq<char> {
    if exists|i: int| 0 <= i < s.len() && s[i] == '\n' {
        s.subrange(0, choose|i: int| 0 <= i < s.len() && s[i] == '\n' && forall|j: int| 0 <= j < i ==> #[trigger] s[j] != '\n')
    } else {
        s
    }
}

/// A `String` holding `t[lo..hi]`.
fn string_of(t: &Vec<char>, lo: usize, hi: usize) -> (s: String)
    requires
        lo <= hi <= t@.len(),
    ensures
        s@ == t@.subrange(lo as int, hi as int),
{
    let mut s = String::new();
    let mut i = lo;
    while i < hi
        invariant
            lo <= i <= hi <= t@.len(),
            s@ == t@.subrange(lo as int, i as int),
        decreases hi - i,
    {
        push_char(&mut s, t[i]);
        i = i + 1;
        assert(s@ =~= t@.subrange(lo as int, i as int));
    }
    s
}

/// What the configuration file says about where the event log goes.
pub struct ConfigChoice {
    /// The event log path.
    pub path: String,
    /// The file was blank and must be rewritten with the default path.
    pub rewrite_default: bool,
}

/// Reads the configuration file's contents: a blank file means the default
/// path (and is rewritten with it); otherwise the path is the first line,
/// trimmed.
pub fn config_db_path(contents: &str) -> (c: ConfigChoice)
    ensures
        crate::builder::is_blank(contents@) ==> c.rewrite_default && c.path@ == DEFAULT_DB_PATH@,
        !crate::builder::is_blank(contents@) ==> !c.rewrite_default && c.path@ == trim(first_line(contents@)),
{
    let t = chars_of(contents);
    let n = t.len();
    let mut blank = true;
    let mut k: usize = 0;
    while k < n
        invariant
            k <= n == t@.len(),
            t@ == contents@,
            blank == (forall|j: int| 0 <= j < k ==> #[trigger] white_space(t@[j])),
        decreases n - k,
    {
        if !char_is_whitespace(t[k]) {
            blank = false;
        }
        k = k + 1;
    }
    if blank {
        return ConfigChoice { path: String::from_str(DEFAULT_DB_PATH), rewrite_default: true };
    }
    let mut e: usize = 0;
    while e < n && t[e] != '\n'
        invariant
            e <= n == t@.len(),
            forall|j: int| 0 <= j < e ==> #[trigger] t@[j] != '\n',
        decreases n - e,
    {
        e = e + 1;
    }
    proof {
        let s = t@;
        if e < n {
            let c = choose|i: int| 0 <= i < s.len() && s[i] == '\n' && forall|j: int| 0 <= j < i ==> #[trigger] s[j] != '\n';
            assert(s[e as int] == '\n');
            assert(0 <= c < s.len() && s[c] == '\n' && forall|j: int| 0 <= j < c ==> #[trigger] s[j] != '\n');
            if c < e {
                assert(s[c] != '\n');
            } else if c > e {
                assert(s[e as int] != '\n');
            }
            assert(first_line(s) == s.subrange(0, e as int));
        } else {
            assert(s.subrange(0, n as int) =~= s);
            assert(first_line(s) == s.subrange(0, e as int));
        }
    }
    let ghost line = t@.subrange(0, e as int);
    let mut lo: usize = 0;
    while lo < e && char_is_whitespace(t[lo])
        invariant
            lo <= e <= n == t@.len(),
            line == t@.subrange(0, e as int),
            trim_start(line) == trim_start(t@.subrange(lo as int, e as int)),
        decreases e - lo,
    {
        proof {
            let sub = t@.subrange(lo as int, e as int);
            assert(sub[0] == t@[lo as int]);
            assert(sub.drop_first() =~= t@.subrange(lo + 1, e as int));
        }
        lo = lo + 1;
    }
    let mut hi: usize = e;
    let ghost ts = t@.subrange(lo as int, e as int);
    proof {
        if lo < e {
            assert(ts[0] == t@[lo as int]);
        }
        assert(trim_start(line) == ts);
    }
    while hi > lo && char_is_whitespace(t[hi - 1])
        invariant
            lo <= hi <= e <= n == t@.len(),
            ts == t@.subrange(lo as int, e as int),
            trim_end(ts) == trim_end(t@.subrange(lo as int, hi as int)),
        decreases hi - lo,
    {
        proof {
            let sub = t@.subrange(lo as int, hi as int);
            assert(sub.last() == t@[hi - 1]);
            assert(sub.drop_last() =~= t@.subrange(lo as int, hi - 1));
        }
        hi = hi - 1;
    }
    proof {
        let sub = t@.subrange(lo as int, hi as int);
        if hi > lo {
            assert(sub.last() == t@[hi - 1]);
        }
        assert(trim_end(sub) == sub);
    }
    ConfigChoice { path: string_of(&t, lo, hi), rewrite_default: false }
}

/// Reads the build helper's command line (the arguments after the program
/// name): `build-ebpf`, optionally with `--release` among the arguments that
/// follow it. Gives whether to build in release mode, or nothing for any
/// other command.
pub fn plan_xtask(args: &Vec<String>) -> (r: Option<bool>)
    ensures
        r is Some <==> (args@.len() > 0 && args@[0]@ == "build-ebpf"@),
        r matches Some(release) ==> release == exists|i: int|
            1 <= i < args@.len() && #[trigger] args@[i]@ == "--release"@,
{
    let command = String::from_str("build-ebpf");
    if args.len() == 0 || !(args[0] == command) {
        return None;
    }
    let flag = String::from_str("--release");
    let mut i: usize = 1;
    while i < args.len()
        invariant
            1 <= i <= args@.len(),
            args@[0]@ == "build-ebpf"@,
            flag@ == "--release"@,
            forall|j: int| 1 <= j < i ==> #[trigger] args@[j]@ != "--release"@,
        decreases args@.len() - i,
    {
        if args[i] == flag {
            return Some(true);
        }
        i = i + 1;
    }
    Some(false)
}

/// The cargo arguments that build the kernel probe program.
pub fn ebpf_build_args(release: bool) -> (r: Vec<String>)
    ensures
        string_views(r@) == seq![
            "+nightly"@,
            "build"@,
            "--package"@,
            "wirelux-ebpf"@,
            "--target"@,
            "bpfel-unknown-none"@,
            "-Z"@,
            "build-std=core"@,
        ] + (if release { seq!["--release"@] } else { Seq::empty() }),
{
    let mut r: Vec<String> = Vec::new();
    r.push(String::from_str("+nightly"));
    r.push(String::from_str("build"));
    r.push(String::from_str("--package"));
    r.push(String::from_str("wirelux-ebpf"));
    r.push(String::from_str("--target"));
    r.push(String::from_str("bpfel-unknown-none"));
    r.push(String::from_str("-Z"));
    r.push(String::from_str("build-std=core"));
    if release {
        r.push(String::from_str("--release"));
    }
    assert(string_views(r@) =~= seq![
            "+nightly"@,
            "build"@,
            "--package"@,
            "wirelux-ebpf"@,
            "--target"@,
            "bpfel-unknown-none"@,
            "-Z"@,
            "build-std=core"@,
        ] + (if release { seq!["--release"@] } else { Seq::empty() }));
    r
}

proof fn lemma_trim_start_at(s: Seq<char>, lo: int)
    requires
        0 <= lo <= s.len(),
        forall|j: int| 0 <= j < lo ==> white_space(#[trigger] s[j]),
        lo < s.len() ==> !white_space(s[lo]),
    ensures
        trim_start(s) == s.subrange(lo, s.len() as int),
    decreases lo,
{
    if lo == 0 {
        assert(s.subrange(0, s.len() as int) =~= s);
    } else {
        let t = s.drop_first();
        assert forall|j: int| 0 <= j < lo - 1 implies white_space(#[trigger] t[j]) by {
            assert(t[j] == s[j + 1]);
        }
        lemma_trim_start_at(t, lo - 1);
        assert(t.subrange(lo - 1, t.len() as int) =~= s.subrange(lo, s.len() as int));
    }
}

proof fn lemma_trim_end_at(s: Seq<char>, hi: int)
    requires
        0 <= hi <= s.len(),
        forall|j: int| hi <= j < s.len() ==> white_space(#[trigger] s[j]),
        hi > 0 ==> !white_space(s[hi - 1]),
    ensures
        trim_end(s) == s.subrange(0, hi),
    decreases s.len() - hi,
{
    if hi == s.len() {
        assert(s.subrange(0, hi) =~= s);
    } else {
        let t = s.drop_last();
        assert(white_space(s[s.len() - 1]));
        lemma_trim_end_at(t, hi);
        assert(t.subrange(0, hi) =~= s.subrange(0, hi));
    }
}

/// The configured path is the first line of a non-blank file with only its
/// leading and trailing white space removed: when the first line ends at `e`
/// (a line feed, or the end of the text) and its first and last characters
/// that are not white space sit at `lo` and `hi - 1`, the path is exactly the
/// characters from `lo` to `hi`, interior spaces included; a first line that
/// is all white space gives an empty path.
pub proof fn law_config_path_is_trimmed_first_line(contents: Seq<char>, e: int, lo: int, hi: int)
    requires
        0 <= e <= contents.len(),
        forall|j: int| 0 <= j < e ==> #[trigger] contents[j] != '\n',
        e < contents.len() ==> contents[e] == '\n',
    ensures
        0 <= lo < hi <= e && (forall|j: int| 0 <= j < lo ==> white_space(#[trigger] contents[j])) && !white_space(
            contents[lo],
        ) && (forall|j: int| hi <= j < e ==> white_space(#[trigger] contents[j])) && !white_space(
            contents[hi - 1],
        ) ==> trim(first_line(contents)) == contents.subrange(lo, hi),
        (forall|j: int| 0 <= j < e ==> white_space(#[trigger] contents[j])) ==> trim(first_line(contents))
            == Seq::<char>::empty(),
{
    if e < contents.len() {
        let c = choose|i: int|
            0 <= i < contents.len() && contents[i] == '\n' && forall|j: int| 0 <= j < i ==> #[trigger] contents[j] != '\n';
        assert(0 <= c < contents.len() && contents[c] == '\n' && forall|j: int| 0 <= j < c ==> #[trigger] contents[j] != '\n');
        if c < e {
            assert(contents[c] != '\n');
        } else if c > e {
            assert(contents[e] != '\n');
        }
    } else {
        assert(!exists|i: int| 0 <= i < contents.len() && contents[i] == '\n') by {
            if exists|i: int| 0 <= i < contents.len() && contents[i] == '\n' {
                let i = choose|i: int| 0 <= i < contents.len() && contents[i] == '\n';
                assert(contents[i] != '\n');
            }
        }
        assert(contents.subrange(0, e) =~= contents);
    }
    let line = contents.subrange(0, e);
    assert(first_line(contents) == line);
    if 0 <= lo < hi <= e && (forall|j: int| 0 <= j < lo ==> white_space(#[trigger] contents[j])) && !white_space(
        contents[lo],
    ) && (forall|j: int| hi <= j < e ==> white_space(#[trigger] contents[j])) && !white_space(contents[hi - 1]) {
        assert forall|j: int| 0 <= j < lo implies white_space(#[trigger] line[j]) by {
            assert(line[j] == contents[j]);
        }
        assert(line[lo] == contents[lo]);
        lemma_trim_start_at(line, lo);
        let rest = line.subrange(lo, e);
        assert forall|j: int| hi - lo <= j < rest.len() implies white_space(#[trigger] rest[j]) by {
            assert(rest[j] == contents[lo + j]);
        }
        assert(rest[hi - lo - 1] == contents[hi - 1]);
        lemma_trim_end_at(rest, hi - lo);
        assert(rest.subrange(0, hi - lo) =~= contents.subrange(lo, hi));
    }
    if forall|j: int| 0 <= j < e ==> white_space(#[trigger] contents[j]) {
        assert forall|j: int| 0 <= j < e implies white_space(#[trigger] line[j]) by {
            assert(line[j] == contents[j]);
        }
        lemma_trim_start_at(line, e);
        assert(line.subrange(e, e) =~= Seq::<char>::empty());
    }
}

} // verus!
