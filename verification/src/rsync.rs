//! rsync: finding a usable binary, building its arguments, and reading the
//! progress lines it prints.
use vstd::prelude::*;
use crate::text::{
    chars_of, contains_at, contains_seq, decimal, decimal_string, find_char, find_char_index,
    has_prefix, has_prefix_at, is_ascii_digit, is_digit, lemma_find_char_bound, lines, next_token,
    parse_u64_at, parse_u64_spec, split_char, string_of, strip_cr, tokens, trim_start_index,
    trim_start_ws,
};

verus! {

/// What one rsync run is asked to do.
#[derive(Debug)]
pub struct RsyncConfig {
    /// Source path. For push: local dir. For pull: "user@host:remote/path/".
    /// Caller is responsible for trailing slash semantics.
    pub source: String,
    pub destination: String,
    pub excludes_file: Option<String>,
    pub bandwidth_limit_kbps: Option<u32>,
    pub mirror_mode: bool,
    pub dry_run: bool,
    pub timeout_seconds: u32,
}

/// An rsync configuration with its texts as characters.
pub struct ConfigView {
    pub source: Seq<char>,
    pub destination: Seq<char>,
    pub excludes_file: Option<Seq<char>>,
    pub bandwidth_limit_kbps: Option<u32>,
    pub mirror_mode: bool,
    pub dry_run: bool,
    pub timeout_seconds: u32,
}

impl View for RsyncConfig {
    type V = ConfigView;

    open spec fn view(&self) -> ConfigView {
        ConfigView {
            source: self.source@,
            destination: self.destination@,
            excludes_file: match self.excludes_file {
                Some(f) => Some(f@),
                None => None,
            },
            bandwidth_limit_kbps: self.bandwidth_limit_kbps,
            mirror_mode: self.mirror_mode,
            dry_run: self.dry_run,
            timeout_seconds: self.timeout_seconds,
        }
    }
}

/// Seconds without progress after which rsync gives up on the connection.
pub const DEFAULT_TIMEOUT_SECONDS: u32 = 300;

impl Default for RsyncConfig {
    fn default() -> (r: Self)
        ensures
            r@ == (ConfigView {
                source: Seq::empty(),
                destination: Seq::empty(),
                excludes_file: None,
                bandwidth_limit_kbps: None,
                mirror_mode: false,
                dry_run: false,
                timeout_seconds: 300,
            }),
    {
        RsyncConfig {
            source: String::new(),
            destination: String::new(),
            excludes_file: None,
            bandwidth_limit_kbps: None,
            mirror_mode: false,
            dry_run: false,
            timeout_seconds: DEFAULT_TIMEOUT_SECONDS,
        }
    }
}

impl Clone for RsyncConfig {
    fn clone(&self) -> (r: Self)
        ensures
            r@ == self@,
    {
        let excludes_file = match &self.excludes_file {
            Some(f) => Some(f.clone()),
            None => None,
        };
        RsyncConfig {
            source: self.source.clone(),
            destination: self.destination.clone(),
            excludes_file,
            bandwidth_limit_kbps: self.bandwidth_limit_kbps,
            mirror_mode: self.mirror_mode,
            dry_run: self.dry_run,
            timeout_seconds: self.timeout_seconds,
        }
    }
}

/// The argument list of an rsync run, in order.
pub open spec fn rsync_args(c: ConfigView) -> Seq<Seq<char>> {
    seq![
        "-az"@,
        "--partial"@,
        "--partial-dir=.rsync-partial"@,
        "--info=progress2"@,
        "--stats"@,
        "--timeout="@ + decimal(c.timeout_seconds as nat),
    ] + match c.excludes_file {
        Some(f) => seq!["--exclude-from="@ + f],
        None => seq![],
    } + (if c.mirror_mode {
        seq!["--delete"@]
    } else {
        seq![]
    }) + match c.bandwidth_limit_kbps {
        Some(k) => if k > 0 {
            seq!["--bwlimit="@ + decimal(k as nat)]
        } else {
            seq![]
        },
        None => seq![],
    } + (if c.dry_run {
        seq!["-i"@, "--dry-run"@]
    } else {
        seq![]
    }) + seq![c.source, c.destination]
}

/// Appends a string to a list of strings.
pub fn push_text(v: &mut Vec<String>, s: String)
    ensures
        final(v).deep_view() == old(v).deep_view().push(s@),
{
    v.push(s);
    assert(v.deep_view() =~= old(v).deep_view().push(s@));
}

/// `prefix` followed by the decimal digits of `n`.
fn with_number(prefix: &str, n: u32) -> (r: String)
    ensures
        r@ == prefix@ + decimal(n as nat),
{
    let mut r = String::from_str(prefix);
    let digits = decimal_string(n as u64);
    r.append(digits.as_str());
    r
}

/// The command-line arguments for rsync under this configuration.
pub fn build_rsync_args(c: &RsyncConfig) -> (args: Vec<String>)
    ensures
        args.deep_view() == rsync_args(c@),
{
    let mut args: Vec<String> = Vec::new();
    push_text(&mut args, String::from_str("-az"));
    push_text(&mut args, String::from_str("--partial"));
    push_text(&mut args, String::from_str("--partial-dir=.rsync-partial"));
    push_text(&mut args, String::from_str("--info=progress2"));
    push_text(&mut args, String::from_str("--stats"));
    push_text(&mut args, with_number("--timeout=", c.timeout_seconds));
    let ghost base = args.deep_view();
    assert(base =~= seq![
        "-az"@,
        "--partial"@,
        "--partial-dir=.rsync-partial"@,
        "--info=progress2"@,
        "--stats"@,
        "--timeout="@ + decimal(c.timeout_seconds as nat),
    ]);
    if let Some(file) = &c.excludes_file {
        let mut a = String::from_str("--exclude-from=");
        a.append(file.as_str());
        push_text(&mut args, a);
    }
    let ghost s1 = args.deep_view();
    assert(s1 =~= base + match c@.excludes_file {
        Some(f) => seq!["--exclude-from="@ + f],
        None => seq![],
    });
    if c.mirror_mode {
        push_text(&mut args, String::from_str("--delete"));
    }
    let ghost s2 = args.deep_view();
    assert(s2 =~= s1 + (if c.mirror_mode {
        seq!["--delete"@]
    } else {
        seq![]
    }));
    if let Some(kbps) = c.bandwidth_limit_kbps {
        if kbps > 0 {
            push_text(&mut args, with_number("--bwlimit=", kbps));
        }
    }
    let ghost s3 = args.deep_view();
    assert(s3 =~= s2 + match c.bandwidth_limit_kbps {
        Some(k) => if k > 0 {
            seq!["--bwlimit="@ + decimal(k as nat)]
        } else {
            seq![]
        },
        None => seq![],
    });
    if c.dry_run {
        push_text(&mut args, String::from_str("-i"));
        push_text(&mut args, String::from_str("--dry-run"));
    }
    let ghost s4 = args.deep_view();
    assert(s4 =~= s3 + (if c.dry_run {
        seq!["-i"@, "--dry-run"@]
    } else {
        seq![]
    }));
    push_text(&mut args, c.source.clone());
    push_text(&mut args, c.destination.clone());
    assert(args.deep_view() =~= rsync_args(c@));
    args
}


/// The arguments before the source and the destination.
pub open spec fn rsync_options(c: ConfigView) -> Seq<Seq<char>> {
    let a = rsync_args(c);
    a.take(a.len() - 2)
}

/// Law: the last two arguments are the source and then the destination.
pub proof fn lemma_args_end_with_endpoints(c: ConfigView)
    ensures
        rsync_args(c).len() >= 8,
        rsync_args(c)[rsync_args(c).len() - 2] == c.source,
        rsync_args(c).last() == c.destination,
        rsync_args(c) == rsync_options(c) + seq![c.source, c.destination],
{
    let a = rsync_args(c);
    assert(a == rsync_options(c) + seq![c.source, c.destination]);
}

/// Law: a dry run uses exactly the arguments of the real run, with `-i` and
/// `--dry-run` added just before the source and the destination.
pub proof fn lemma_dry_run_only_adds_flags(c: ConfigView)
    ensures
        rsync_options(ConfigView { dry_run: true, ..c }) == rsync_options(
            ConfigView { dry_run: false, ..c },
        ) + seq!["-i"@, "--dry-run"@],
        rsync_args(ConfigView { dry_run: true, ..c }).last() == rsync_args(
            ConfigView { dry_run: false, ..c },
        ).last(),
{
    let wet = ConfigView { dry_run: false, ..c };
    let dry = ConfigView { dry_run: true, ..c };
    lemma_args_end_with_endpoints(wet);
    lemma_args_end_with_endpoints(dry);
    assert(rsync_options(dry) =~= rsync_options(wet) + seq!["-i"@, "--dry-run"@]);
}

proof fn lemma_fixed_options_differ()
    ensures
        "--delete"@ != "-az"@,
        "--delete"@ != "--partial"@,
        "--delete"@ != "--partial-dir=.rsync-partial"@,
        "--delete"@ != "--info=progress2"@,
        "--delete"@ != "--stats"@,
        "--delete"@ != "-i"@,
        "--delete"@ != "--dry-run"@,
        "--delete"@.len() == 8,
        !has_prefix("-az"@, "--bwlimit"@),
        !has_prefix("--partial"@, "--bwlimit"@),
        !has_prefix("--partial-dir=.rsync-partial"@, "--bwlimit"@),
        !has_prefix("--info=progress2"@, "--bwlimit"@),
        !has_prefix("--stats"@, "--bwlimit"@),
        !has_prefix("--delete"@, "--bwlimit"@),
        !has_prefix("-i"@, "--bwlimit"@),
        !has_prefix("--dry-run"@, "--bwlimit"@),
        "--bwlimit"@.len() == 9,
        "--bwlimit"@[2] == 'b',
        "--timeout="@.len() == 10,
        "--timeout="@[2] == 't',
        "--exclude-from="@.len() == 15,
        "--exclude-from="@[2] == 'e',
        "--bwlimit="@ == "--bwlimit"@.push('='),
{
    reveal_strlit("--delete");
    reveal_strlit("-az");
    reveal_strlit("--partial");
    reveal_strlit("--partial-dir=.rsync-partial");
    reveal_strlit("--info=progress2");
    reveal_strlit("--stats");
    reveal_strlit("-i");
    reveal_strlit("--dry-run");
    reveal_strlit("--bwlimit");
    reveal_strlit("--bwlimit=");
    reveal_strlit("--timeout=");
    reveal_strlit("--exclude-from=");
    assert("--delete"@.len() == 8);
    assert("-az"@.len() == 3);
    assert("--stats"@.len() == 7);
    assert("--partial"@.len() == 9);
    assert("-i"@.len() == 2);
    assert("--dry-run"@.len() == 9);
    assert("--partial"@.take(9)[2] != "--bwlimit"@[2]);
    assert("--partial-dir=.rsync-partial"@.take(9)[2] != "--bwlimit"@[2]);
    assert("--info=progress2"@.take(9)[2] != "--bwlimit"@[2]);
    assert("--dry-run"@.take(9)[2] != "--bwlimit"@[2]);
    assert("--bwlimit="@ =~= "--bwlimit"@.push('='));
}

/// Law: `--delete` is among the options exactly in mirror mode.
pub proof fn lemma_delete_iff_mirror(c: ConfigView)
    ensures
        rsync_options(c).contains("--delete"@) <==> c.mirror_mode,
{
    lemma_fixed_options_differ();
    let o = rsync_options(c);
    lemma_args_end_with_endpoints(c);
    if c.mirror_mode {
        let i = if c.excludes_file is Some {
            7int
        } else {
            6int
        };
        assert(o[i] == "--delete"@);
    }
    if o.contains("--delete"@) {
        let i = choose|i: int| 0 <= i < o.len() && o[i] == "--delete"@;
        if i == 5 {
            assert(o[i].len() >= 10);
        }
        if c.excludes_file is Some && i == 6 {
            assert(o[i].len() >= 15);
        }
        if !c.mirror_mode && c.bandwidth_limit_kbps is Some && c.bandwidth_limit_kbps->0 > 0 {
            let bi = if c.excludes_file is Some {
                7int
            } else {
                6int
            };
            if i == bi {
                assert(o[i].len() >= 10);
            }
        }
    }
}

/// Law: an option starting with `--bwlimit` is present exactly when a
/// bandwidth limit above zero is set, and it is `--bwlimit=` and the limit.
pub proof fn lemma_bwlimit_iff_positive(c: ConfigView)
    ensures
        (exists|i: int| 0 <= i < rsync_options(c).len() && has_prefix(#[trigger] rsync_options(c)[i], "--bwlimit"@))
            <==> (c.bandwidth_limit_kbps matches Some(k) && k > 0),
        (c.bandwidth_limit_kbps matches Some(k) && k > 0) ==> rsync_options(c).contains(
            "--bwlimit="@ + decimal(c.bandwidth_limit_kbps->0 as nat),
        ),
{
    lemma_fixed_options_differ();
    let o = rsync_options(c);
    lemma_args_end_with_endpoints(c);
    let e = if c.excludes_file is Some {
        1int
    } else {
        0int
    };
    let m = if c.mirror_mode {
        1int
    } else {
        0int
    };
    if c.bandwidth_limit_kbps is Some && c.bandwidth_limit_kbps->0 > 0 {
        let k = c.bandwidth_limit_kbps->0;
        let x = "--bwlimit="@ + decimal(k as nat);
        assert(o[6 + e + m] == x);
        assert(x.take(9) =~= "--bwlimit"@);
        assert(has_prefix(o[6 + e + m], "--bwlimit"@));
    }
    if exists|i: int| 0 <= i < o.len() && has_prefix(#[trigger] o[i], "--bwlimit"@) {
        let i = choose|i: int| 0 <= i < o.len() && has_prefix(#[trigger] o[i], "--bwlimit"@);
        if i == 5 {
            assert(o[i].take(9)[2] == 't');
        }
        if e == 1 && i == 6 {
            assert(o[i].take(9)[2] == 'e');
        }
    }
}


proof fn lemma_option_words_facts()
    ensures
        "-az"@.len() == 3,
        "--partial"@.len() == 9,
        "--partial-dir=.rsync-partial"@.len() == 28,
        "--partial-dir=.rsync-partial"@[2] == 'p',
        "--info=progress2"@.len() == 16,
        "--info=progress2"@[2] == 'i',
        "--stats"@.len() == 7,
        "--timeout="@.len() == 10,
        "--timeout="@[2] == 't',
        "--exclude-from="@.len() == 15,
        "--exclude-from="@[2] == 'e',
        "--delete"@.len() == 8,
        "--bwlimit="@.len() == 10,
        "--bwlimit="@[2] == 'b',
        "-i"@.len() == 2,
        "--dry-run"@.len() == 9,
{
    reveal_strlit("-az");
    reveal_strlit("--partial");
    reveal_strlit("--partial-dir=.rsync-partial");
    reveal_strlit("--info=progress2");
    reveal_strlit("--stats");
    reveal_strlit("--timeout=");
    reveal_strlit("--exclude-from=");
    reveal_strlit("--delete");
    reveal_strlit("--bwlimit=");
    reveal_strlit("-i");
    reveal_strlit("--dry-run");
}

/// Law: the options name the exclude file `f` exactly when the
/// configuration reads its excludes from `f`, whatever the source and the
/// destination are.
pub proof fn lemma_exclude_from_iff_file(c: ConfigView, f: Seq<char>)
    ensures
        rsync_options(c).contains("--exclude-from="@ + f) <==> c.excludes_file == Some(f),
{
    lemma_option_words_facts();
    let o = rsync_options(c);
    lemma_args_end_with_endpoints(c);
    let x = "--exclude-from="@ + f;
    assert(x.len() >= 15 && x[2] == 'e');
    assert(x.skip(15) =~= f);
    if c.excludes_file == Some(f) {
        assert(o[6] == x);
    }
    if o.contains(x) {
        let i = choose|i: int| 0 <= i < o.len() && o[i] == x;
        assert(o[i][2] == 'e');
        if c.excludes_file is Some && i == 6 {
            let g = c.excludes_file->0;
            assert(o[6].skip(15) =~= g);
        }
        let e = if c.excludes_file is Some {
            1int
        } else {
            0int
        };
        let m = if c.mirror_mode {
            1int
        } else {
            0int
        };
        if c.bandwidth_limit_kbps is Some && c.bandwidth_limit_kbps->0 > 0 && i == 6 + e + m {
            assert(o[i][2] == 'b');
        }
        if i == 5 {
            assert(o[i][2] == 't');
        }
    }
}

/// Law: for a progress line, the percentage is its second word without the
/// `%` sign: a word `p%` gives `p`, a word without a trailing `%` is taken
/// as it is.
pub proof fn lemma_percent_is_second_word(line: Seq<char>, p: Seq<char>)
    requires
        progress_spec(line) matches Some(r) && r.current_file is None,
        !(p.len() > 0 && p.last() == '%'),
    ensures
        progress_words(line).len() >= 4,
        progress_words(line)[1] == p.push('%') ==> progress_spec(line)->0.percent_text == Some(p),
        progress_words(line)[1] == p ==> progress_spec(line)->0.percent_text == Some(p),
{
    assert(p.push('%').drop_last() =~= p);
    assert(trim_end_char(p, '%') == p);
    assert(trim_end_char(p.push('%'), '%') == trim_end_char(p, '%'));
}

/// Law: every run starts with archive mode and compression, partial
/// transfers kept in `.rsync-partial`, overall progress, statistics and the
/// configured timeout, in that order.
pub proof fn lemma_args_start(c: ConfigView)
    ensures
        rsync_args(c).len() >= 6,
        rsync_args(c).take(6) == seq![
            "-az"@,
            "--partial"@,
            "--partial-dir=.rsync-partial"@,
            "--info=progress2"@,
            "--stats"@,
            "--timeout="@ + decimal(c.timeout_seconds as nat),
        ],
{
    lemma_args_end_with_endpoints(c);
    assert(rsync_args(c).take(6) =~= seq![
        "-az"@,
        "--partial"@,
        "--partial-dir=.rsync-partial"@,
        "--info=progress2"@,
        "--stats"@,
        "--timeout="@ + decimal(c.timeout_seconds as nat),
    ]);
}

/// Law: a line whose first non-blank character is not a digit names the
/// file being sent: the whole line without its line break.
pub proof fn lemma_file_name_line(line: Seq<char>)
    requires
        trim_start_ws(trim_end_crlf(line)).len() > 0,
        !is_digit(trim_start_ws(trim_end_crlf(line))[0]),
    ensures
        progress_spec(line) matches Some(r) && r.current_file == Some(trim_end_crlf(line))
            && r.bytes_transferred == 0 && r.percent_text is None && r.rate is None
            && r.eta_seconds is None,
{
    let t = trim_end_crlf(line);
    if t.len() == 0 {
        assert(trim_start_ws(t) == t);
    }
}

/// The file `name` inside the directory `dir`, as `Path::join` with a
/// relative name writes it.
pub open spec fn in_dir(dir: Seq<char>, name: Seq<char>) -> Seq<char> {
    if dir.len() == 0 {
        name
    } else if dir.last() == '/' {
        dir + name
    } else {
        dir + "/"@ + name
    }
}

/// The fixed places where a modern rsync is looked for when `PATH` has
/// none (macOS ships openrsync at /usr/bin/rsync, which lacks
/// --info=progress2, --partial-dir, --bwlimit and friends): the usual
/// Homebrew locations, then the system one.
pub open spec fn fallback_rsync_paths() -> Seq<Seq<char>> {
    seq!["/opt/homebrew/bin/rsync"@, "/usr/local/bin/rsync"@, "/usr/bin/rsync"@]
}

/// Where rsync is looked for, in order: `rsync` in each directory of
/// `PATH`, then the fixed places.
pub open spec fn rsync_candidate_paths(path_dirs: Seq<Seq<char>>) -> Seq<Seq<char>> {
    path_dirs.map_values(|d: Seq<char>| in_dir(d, "rsync"@)) + fallback_rsync_paths()
}

/// `name` inside the directory `dir`.
pub fn join_path(dir: &str, name: &str) -> (r: String)
    ensures
        r@ == in_dir(dir@, name@),
{
    let v = chars_of(dir);
    if v.len() == 0 {
        return String::from_str(name);
    }
    let mut r = String::from_str(dir);
    if v[v.len() - 1] != '/' {
        r.append("/");
    }
    r.append(name);
    r
}

/// The paths where an rsync binary is looked for, in the order they are
/// tried, given the directories of `PATH` in their order.
pub fn rsync_candidates(path_dirs: &Vec<String>) -> (r: Vec<String>)
    ensures
        r.deep_view() == rsync_candidate_paths(path_dirs.deep_view()),
{
    let ghost dirs = path_dirs.deep_view();
    let ghost on_path = dirs.map_values(|d: Seq<char>| in_dir(d, "rsync"@));
    let mut r: Vec<String> = Vec::new();
    let mut i: usize = 0;
    while i < path_dirs.len()
        invariant
            i <= path_dirs@.len(),
            dirs == path_dirs.deep_view(),
            on_path == dirs.map_values(|d: Seq<char>| in_dir(d, "rsync"@)),
            r.deep_view() == on_path.take(i as int),
        decreases path_dirs@.len() - i,
    {
        let p = join_path(path_dirs[i].as_str(), "rsync");
        assert(on_path[i as int] == in_dir(dirs[i as int], "rsync"@));
        push_text(&mut r, p);
        assert(r.deep_view() =~= on_path.take(i + 1));
        i = i + 1;
    }
    assert(on_path.take(i as int) =~= on_path);
    push_text(&mut r, String::from_str("/opt/homebrew/bin/rsync"));
    push_text(&mut r, String::from_str("/usr/local/bin/rsync"));
    push_text(&mut r, String::from_str("/usr/bin/rsync"));
    assert(r.deep_view() =~= rsync_candidate_paths(path_dirs.deep_view()));
    r
}

/// The first line of a text (`s.lines().next().unwrap_or("")`).
pub open spec fn first_line(s: Seq<char>) -> Seq<char> {
    if lines(s).len() > 0 {
        lines(s)[0]
    } else {
        seq![]
    }
}

/// Whether `rsync --version` printed the banner of rsync 3 or later: the
/// first line neither starts with `openrsync` (Apple's own rsync) nor mentions
/// `version 2.`.
pub open spec fn is_modern_version(out: Seq<char>) -> bool {
    !has_prefix(first_line(out), "openrsync"@) && !contains_seq(first_line(out), "version 2."@)
}

/// Decides from the output of `rsync --version` whether that rsync is modern.
pub fn is_modern_rsync(version_output: &str) -> (r: bool)
    ensures
        r == is_modern_version(version_output@),
{
    let v = chars_of(version_output);
    let n = v.len();
    let i = find_char_index(&v, 0, n, '\n');
    proof {
        assert(v@.subrange(0, n as int) =~= v@);
        lemma_find_char_bound(v@, '\n');
    }
    let mut end = i;
    if i < n && i > 0 && v[i - 1] == '\r' {
        end = i - 1;
    }
    proof {
        if n > 0 {
            if i < n {
                assert(strip_cr(v@.take(i as int)) =~= v@.subrange(0, end as int));
            } else {
                assert(v@.subrange(0, end as int) =~= v@);
            }
        } else {
            assert(v@.subrange(0, end as int) =~= Seq::<char>::empty());
        }
        assert(first_line(v@) =~= v@.subrange(0, end as int));
    }
    let open = chars_of("openrsync");
    let old_version = chars_of("version 2.");
    !has_prefix_at(&v, 0, end, &open) && !contains_at(&v, 0, end, &old_version)
}

/// The first path whose `--version` output shows a modern rsync.
pub open spec fn first_modern(probes: Seq<(Seq<char>, Option<Seq<char>>)>) -> Option<Seq<char>>
    decreases probes.len(),
{
    if probes.len() == 0 {
        None
    } else if probes[0].1 matches Some(out) && is_modern_version(out) {
        Some(probes[0].0)
    } else {
        first_modern(probes.drop_first())
    }
}

/// Candidate paths, each with what `rsync --version` printed there (`None`
/// where no binary exists or it could not be run), as characters.
pub open spec fn probes_view(probes: Seq<(String, Option<String>)>) -> Seq<(Seq<char>, Option<Seq<char>>)> {
    probes.map_values(|p: (String, Option<String>)| (p.0@, match p.1 {
        Some(o) => Some(o@),
        None => None,
    }))
}

/// Finds a modern rsync (3.x) among probed candidates (those of
/// `rsync_candidates`: `PATH` first, then the fixed places), in their
/// order. `None` when only openrsync or rsync 2.x (or nothing) was found.
pub fn rsync_binary(probes: &Vec<(String, Option<String>)>) -> (r: Option<String>)
    ensures
        match r {
            Some(p) => first_modern(probes_view(probes@)) == Some(p@),
            None => first_modern(probes_view(probes@)) is None,
        },
{
    let ghost pv = probes_view(probes@);
    assert(pv.skip(0) =~= pv);
    let mut i: usize = 0;
    while i < probes.len()
        invariant
            i <= probes@.len(),
            pv == probes_view(probes@),
            first_modern(pv) == first_modern(pv.skip(i as int)),
        decreases probes@.len() - i,
    {
        let (path, out) = &probes[i];
        assert(pv.skip(i as int)[0] == pv[i as int]);
        assert(pv.skip(i as int).drop_first() =~= pv.skip(i + 1));
        match out {
            Some(o) => {
                if is_modern_rsync(o.as_str()) {
                    return Some(path.clone());
                }
            },
            None => {},
        }
        i = i + 1;
    }
    assert(pv.skip(i as int).len() == 0);
    None
}


/// `s` without its trailing `'\r'` and `'\n'` characters.
pub open spec fn trim_end_crlf(s: Seq<char>) -> Seq<char>
    decreases s.len(),
{
    if s.len() > 0 && (s.last() == '\r' || s.last() == '\n') {
        trim_end_crlf(s.drop_last())
    } else {
        s
    }
}

/// `s` without its trailing copies of `c`.
pub open spec fn trim_end_char(s: Seq<char>, c: char) -> Seq<char>
    decreases s.len(),
{
    if s.len() > 0 && s.last() == c {
        trim_end_char(s.drop_last(), c)
    } else {
        s
    }
}

/// `s` with every `c` taken out.
pub open spec fn remove_char(s: Seq<char>, c: char) -> Seq<char>
    decreases s.len(),
{
    if s.len() == 0 {
        seq![]
    } else if s.last() == c {
        remove_char(s.drop_last(), c)
    } else {
        remove_char(s.drop_last(), c).push(s.last())
    }
}

/// `s` without its trailing repetitions of `/s`.
pub open spec fn trim_end_per_second(s: Seq<char>) -> Seq<char>
    decreases s.len(),
{
    if s.len() >= 2 && s[s.len() - 2] == '/' && s[s.len() - 1] == 's' {
        trim_end_per_second(s.take(s.len() - 2))
    } else {
        s
    }
}

/// Whether `char::is_alphabetic` holds: the Unicode `Alphabetic` property.
pub uninterp spec fn alphabetic(c: char) -> bool;

/// `char::is_alphabetic`. Claimed: the result is the Unicode `Alphabetic`
/// property of `c`, which on ASCII holds exactly for `A`-`Z` and `a`-`z`.
#[verifier::external_body]
fn is_alphabetic(c: char) -> (r: bool)
    ensures
        r == alphabetic(c),
        (c as u32) < 128 ==> (r <==> (65 <= (c as u32) <= 90 || 97 <= (c as u32) <= 122)),
{
    c.is_alphabetic()
}

/// Index of the first alphabetic character of `s`, or `s.len()`.
pub open spec fn find_alphabetic(s: Seq<char>) -> nat
    decreases s.len(),
{
    if s.len() == 0 || alphabetic(s[0]) {
        0
    } else {
        1 + find_alphabetic(s.drop_first())
    }
}

/// Bytes per second for each rate unit rsync prints.
pub open spec fn unit_multiplier(u: Seq<char>) -> Option<u64> {
    if u == "B"@ {
        Some(1)
    } else if u == "kB"@ || u == "KB"@ {
        Some(1024)
    } else if u == "MB"@ {
        Some(1048576)
    } else if u == "GB"@ {
        Some(1073741824)
    } else {
        None
    }
}

/// A transfer rate such as `1.23MB/s`, split into its number (`1.23`) and
/// the bytes-per-second value of its unit: the number runs up to the first
/// alphabetic character, the unit is the rest once `/s` is cut off.
pub open spec fn rate_spec(s: Seq<char>) -> Option<(Seq<char>, u64)> {
    let t = trim_end_per_second(s);
    let i = find_alphabetic(t);
    if i >= t.len() {
        None
    } else {
        match unit_multiplier(t.skip(i as int)) {
            Some(m) => Some((t.take(i as int), m)),
            None => None,
        }
    }
}

/// The hours, minutes and seconds of an `h:mm:ss` duration, if it has
/// three numeric parts.
pub open spec fn eta_parts(s: Seq<char>) -> Option<(u64, u64, u64)> {
    let p = split_char(s, ':');
    if p.len() != 3 {
        None
    } else {
        match (parse_u64_spec(p[0]), parse_u64_spec(p[1]), parse_u64_spec(p[2])) {
            (Some(h), Some(m), Some(x)) => Some((h, m, x)),
            _ => None,
        }
    }
}

/// The total seconds of an `h:mm:ss` duration, if it has three numeric parts.
pub open spec fn eta_total(s: Seq<char>) -> Option<int> {
    match eta_parts(s) {
        Some((h, m, x)) => Some(h * 3600 + m * 60 + x),
        None => None,
    }
}

/// The duration's total, where there is one, fits in `u64`.
pub open spec fn eta_fits(s: Seq<char>) -> bool {
    eta_total(s) matches Some(t) ==> t <= u64::MAX
}

/// `eta_total` as a `u64`.
pub open spec fn eta_spec(s: Seq<char>) -> Option<u64> {
    match eta_total(s) {
        Some(t) => Some(t as u64),
        None => None,
    }
}

/// A rate split into the text of its number and the bytes per second of
/// its unit; the number is a decimal fraction such as `1.23`.
#[derive(Debug, PartialEq)]
pub struct RateParts {
    pub number: String,
    pub multiplier: u64,
}

/// What one line of `--info=progress2` output says. The percentage and the
/// rate's number stay as rsync printed them.
#[derive(Debug, PartialEq)]
pub struct ProgressFields {
    pub bytes_transferred: u64,
    pub percent_text: Option<String>,
    pub rate: Option<RateParts>,
    pub eta_seconds: Option<u64>,
    pub current_file: Option<String>,
}

/// The contents of `ProgressFields`, texts as characters.
pub struct ProgressView {
    pub bytes_transferred: u64,
    pub percent_text: Option<Seq<char>>,
    pub rate: Option<(Seq<char>, u64)>,
    pub eta_seconds: Option<u64>,
    pub current_file: Option<Seq<char>>,
}

impl View for ProgressFields {
    type V = ProgressView;

    open spec fn view(&self) -> ProgressView {
        ProgressView {
            bytes_transferred: self.bytes_transferred,
            percent_text: match self.percent_text {
                Some(p) => Some(p@),
                None => None,
            },
            rate: match self.rate {
                Some(r) => Some((r.number@, r.multiplier)),
                None => None,
            },
            eta_seconds: self.eta_seconds,
            current_file: match self.current_file {
                Some(f) => Some(f@),
                None => None,
            },
        }
    }
}

/// A progress line's words, once it is known to start with a digit.
pub open spec fn progress_words(line: Seq<char>) -> Seq<Seq<char>> {
    tokens(trim_start_ws(trim_end_crlf(line)))
}

/// What a line of rsync output means: nothing for a blank line; a file name
/// for a line that does not start with a digit once leading whitespace is
/// skipped; otherwise, for a line of at least four words whose first word
/// is a byte count (commas ignored), that count with the percentage (its
/// `%` cut off), the rate and the remaining time.
pub open spec fn progress_spec(line: Seq<char>) -> Option<ProgressView> {
    let t = trim_end_crlf(line);
    let l = trim_start_ws(t);
    if t.len() == 0 || l.len() == 0 {
        None
    } else if !is_digit(l[0]) {
        Some(
            ProgressView {
                bytes_transferred: 0,
                percent_text: None,
                rate: None,
                eta_seconds: None,
                current_file: Some(t),
            },
        )
    } else {
        let w = tokens(l);
        if w.len() < 4 {
            None
        } else {
            match parse_u64_spec(remove_char(w[0], ',')) {
                None => None,
                Some(b) => Some(
                    ProgressView {
                        bytes_transferred: b,
                        percent_text: Some(trim_end_char(w[1], '%')),
                        rate: rate_spec(w[2]),
                        eta_seconds: eta_spec(w[3]),
                        current_file: None,
                    },
                ),
            }
        }
    }
}

/// The remaining-time word of a progress line, where the line gets that far,
/// has a total that fits in `u64`.
pub open spec fn progress_fits(line: Seq<char>) -> bool {
    let t = trim_end_crlf(line);
    let l = trim_start_ws(t);
    let w = tokens(l);
    (t.len() > 0 && l.len() > 0 && is_digit(l[0]) && w.len() >= 4 && parse_u64_spec(
        remove_char(w[0], ','),
    ) is Some) ==> eta_fits(w[3])
}


/// End of `v[lo..hi]` once trailing `'\r'` and `'\n'` are removed.
fn trim_end_crlf_index(v: &Vec<char>, lo: usize, hi: usize) -> (e: usize)
    requires
        lo <= hi <= v@.len(),
    ensures
        lo <= e <= hi,
        v@.subrange(lo as int, e as int) == trim_end_crlf(v@.subrange(lo as int, hi as int)),
{
    let mut e = hi;
    while e > lo && (v[e - 1] == '\r' || v[e - 1] == '\n')
        invariant
            lo <= e <= hi <= v@.len(),
            trim_end_crlf(v@.subrange(lo as int, hi as int)) == trim_end_crlf(
                v@.subrange(lo as int, e as int),
            ),
        decreases e,
    {
        assert(v@.subrange(lo as int, e as int).drop_last() =~= v@.subrange(lo as int, e - 1));
        e = e - 1;
    }
    e
}

/// End of `v[lo..hi]` once trailing copies of `c` are removed.
fn trim_end_char_index(v: &Vec<char>, lo: usize, hi: usize, c: char) -> (e: usize)
    requires
        lo <= hi <= v@.len(),
    ensures
        lo <= e <= hi,
        v@.subrange(lo as int, e as int) == trim_end_char(v@.subrange(lo as int, hi as int), c),
{
    let mut e = hi;
    while e > lo && v[e - 1] == c
        invariant
            lo <= e <= hi <= v@.len(),
            trim_end_char(v@.subrange(lo as int, hi as int), c) == trim_end_char(
                v@.subrange(lo as int, e as int),
                c,
            ),
        decreases e,
    {
        assert(v@.subrange(lo as int, e as int).drop_last() =~= v@.subrange(lo as int, e - 1));
        e = e - 1;
    }
    e
}

/// The characters of `v[lo..hi]` other than `c`.
fn without_char(v: &Vec<char>, lo: usize, hi: usize, c: char) -> (w: Vec<char>)
    requires
        lo <= hi <= v@.len(),
    ensures
        w@ == remove_char(v@.subrange(lo as int, hi as int), c),
{
    let mut w: Vec<char> = Vec::new();
    let mut i = lo;
    while i < hi
        invariant
            lo <= i <= hi <= v@.len(),
            w@ == remove_char(v@.subrange(lo as int, i as int), c),
        decreases hi - i,
    {
        assert(v@.subrange(lo as int, i + 1).drop_last() =~= v@.subrange(lo as int, i as int));
        if v[i] != c {
            w.push(v[i]);
        }
        i = i + 1;
    }
    w
}

/// Whether `v[lo..hi]` is exactly `p`.
fn range_is(v: &Vec<char>, lo: usize, hi: usize, p: &str) -> (r: bool)
    requires
        lo <= hi <= v@.len(),
    ensures
        r == (v@.subrange(lo as int, hi as int) == p@),
{
    let pv = chars_of(p);
    if pv.len() != hi - lo {
        return false;
    }
    let r = has_prefix_at(v, lo, hi, &pv);
    assert(v@.subrange(lo as int, hi as int).take(pv@.len() as int) =~= v@.subrange(
        lo as int,
        hi as int,
    ));
    r
}

/// Splits a rate such as `512kB/s` found in `v[lo..hi]` into its number and
/// the bytes per second of its unit.
fn parse_rate(v: &Vec<char>, lo: usize, hi: usize) -> (r: Option<RateParts>)
    requires
        lo <= hi <= v@.len(),
    ensures
        match r {
            Some(p) => rate_spec(v@.subrange(lo as int, hi as int)) == Some((p.number@, p.multiplier)),
            None => rate_spec(v@.subrange(lo as int, hi as int)) is None,
        },
{
    let mut e = hi;
    while e - lo >= 2 && v[e - 2] == '/' && v[e - 1] == 's'
        invariant
            lo <= e <= hi <= v@.len(),
            trim_end_per_second(v@.subrange(lo as int, hi as int)) == trim_end_per_second(
                v@.subrange(lo as int, e as int),
            ),
        decreases e,
    {
        assert(v@.subrange(lo as int, e as int).take(e - lo - 2) =~= v@.subrange(
            lo as int,
            e - 2,
        ));
        e = e - 2;
    }
    let mut i = lo;
    while i < e && !is_alphabetic(v[i])
        invariant
            lo <= i <= e <= hi <= v@.len(),
            find_alphabetic(v@.subrange(lo as int, e as int)) == (i - lo) + find_alphabetic(
                v@.subrange(i as int, e as int),
            ),
        decreases e - i,
    {
        assert(v@.subrange(i as int, e as int).drop_first() =~= v@.subrange(i + 1, e as int));
        i = i + 1;
    }
    let ghost t = v@.subrange(lo as int, e as int);
    if i == e {
        return None;
    }
    assert(t.skip(i - lo) =~= v@.subrange(i as int, e as int));
    assert(t.take(i - lo) =~= v@.subrange(lo as int, i as int));
    let multiplier: u64 = if range_is(v, i, e, "B") {
        1
    } else if range_is(v, i, e, "kB") || range_is(v, i, e, "KB") {
        1024
    } else if range_is(v, i, e, "MB") {
        1048576
    } else if range_is(v, i, e, "GB") {
        1073741824
    } else {
        return None;
    };
    Some(RateParts { number: string_of(v, lo, i), multiplier })
}

proof fn lemma_split_step(s: Seq<char>, c: char)
    ensures
        find_char(s, c) >= s.len() ==> split_char(s, c) == seq![s],
        find_char(s, c) < s.len() ==> split_char(s, c) == seq![s.take(find_char(s, c) as int)]
            + split_char(s.skip((find_char(s, c) + 1) as int), c),
{
}

/// The hours, minutes and seconds of an `h:mm:ss` duration in `v[lo..hi]`.
fn eta_parts_at(v: &Vec<char>, lo: usize, hi: usize) -> (r: Option<(u64, u64, u64)>)
    requires
        lo <= hi <= v@.len(),
    ensures
        r == eta_parts(v@.subrange(lo as int, hi as int)),
{
    let ghost s = v@.subrange(lo as int, hi as int);
    let i1 = find_char_index(v, lo, hi, ':');
    proof {
        lemma_find_char_bound(s, ':');
        lemma_split_step(s, ':');
    }
    if i1 == hi {
        return None;
    }
    let ghost s2 = v@.subrange(i1 + 1, hi as int);
    assert(s.skip(i1 - lo + 1) =~= s2);
    assert(s.take(i1 - lo) =~= v@.subrange(lo as int, i1 as int));
    let i2 = find_char_index(v, i1 + 1, hi, ':');
    proof {
        lemma_find_char_bound(s2, ':');
        lemma_split_step(s2, ':');
    }
    if i2 == hi {
        return None;
    }
    let ghost s3 = v@.subrange(i2 + 1, hi as int);
    assert(s2.skip(i2 - i1) =~= s3);
    assert(s2.take(i2 - i1 - 1) =~= v@.subrange(i1 + 1, i2 as int));
    let i3 = find_char_index(v, i2 + 1, hi, ':');
    proof {
        lemma_find_char_bound(s3, ':');
        lemma_split_step(s3, ':');
        if i3 < hi {
            lemma_split_step(s3.skip(i3 - i2), ':');
        }
    }
    if i3 < hi {
        return None;
    }
    let h = match parse_u64_at(v, lo, i1) {
        Some(x) => x,
        None => {
            return None;
        },
    };
    let m = match parse_u64_at(v, i1 + 1, i2) {
        Some(x) => x,
        None => {
            return None;
        },
    };
    let sec = match parse_u64_at(v, i2 + 1, hi) {
        Some(x) => x,
        None => {
            return None;
        },
    };
    Some((h, m, sec))
}

/// The total seconds of an `h:mm:ss` duration in `v[lo..hi]`.
fn parse_eta_at(v: &Vec<char>, lo: usize, hi: usize) -> (r: Option<u64>)
    requires
        lo <= hi <= v@.len(),
        eta_fits(v@.subrange(lo as int, hi as int)),
    ensures
        r == eta_spec(v@.subrange(lo as int, hi as int)),
{
    match eta_parts_at(v, lo, hi) {
        Some((h, m, sec)) => Some(h * 3600 + m * 60 + sec),
        None => None,
    }
}

/// The total seconds of an `h:mm:ss` duration, such as `0:01:23`.
pub fn parse_eta(s: &str) -> (r: Option<u64>)
    requires
        eta_fits(s@),
    ensures
        r == eta_spec(s@),
{
    let v = chars_of(s);
    assert(v@.subrange(0, v@.len() as int) =~= s@);
    parse_eta_at(&v, 0, v.len())
}


/// The first four words of `v[lo..hi]`, as ranges, when it has that many.
fn four_words(v: &Vec<char>, lo: usize, hi: usize) -> (r: Option<[(usize, usize); 4]>)
    requires
        lo <= hi <= v@.len(),
    ensures
        r is None <==> tokens(v@.subrange(lo as int, hi as int)).len() < 4,
        r matches Some(w) ==> forall|k: int|
            0 <= k < 4 ==> {
                &&& lo <= (#[trigger] w[k]).0 <= w[k].1 <= hi
                &&& v@.subrange(w[k].0 as int, w[k].1 as int) == tokens(
                    v@.subrange(lo as int, hi as int),
                )[k]
            },
{
    let ghost all = tokens(v@.subrange(lo as int, hi as int));
    let (b0, e0) = match next_token(v, lo, hi) {
        Some(x) => x,
        None => {
            return None;
        },
    };
    let (b1, e1) = match next_token(v, e0, hi) {
        Some(x) => x,
        None => {
            return None;
        },
    };
    let (b2, e2) = match next_token(v, e1, hi) {
        Some(x) => x,
        None => {
            return None;
        },
    };
    let (b3, e3) = match next_token(v, e2, hi) {
        Some(x) => x,
        None => {
            return None;
        },
    };
    let w = [(b0, e0), (b1, e1), (b2, e2), (b3, e3)];
    assert(all[0] == v@.subrange(b0 as int, e0 as int));
    assert(all[1] == v@.subrange(b1 as int, e1 as int));
    assert(all[2] == v@.subrange(b2 as int, e2 as int));
    assert(all[3] == v@.subrange(b3 as int, e3 as int));
    Some(w)
}

/// How a line of rsync output reads, as positions in its characters.
enum LineShape {
    /// A blank line, or a line led by a digit that is no progress line.
    Nothing,
    /// A file name, ending at the given position.
    File(usize),
    /// A progress line: its byte count and its first four words.
    Progress(u64, [(usize, usize); 4]),
}

/// The shape of the line held in `v`, as `progress_spec` reads it.
fn line_shape(v: &Vec<char>) -> (r: LineShape)
    ensures
        ({
            let t = trim_end_crlf(v@);
            let l = trim_start_ws(t);
            match r {
                LineShape::Nothing => t.len() == 0 || l.len() == 0 || (is_digit(l[0]) && (
                tokens(l).len() < 4 || parse_u64_spec(remove_char(tokens(l)[0], ',')) is None)),
                LineShape::File(end) => t.len() > 0 && l.len() > 0 && !is_digit(l[0]) && end
                    <= v@.len() && v@.subrange(0, end as int) == t,
                LineShape::Progress(b, w) => {
                    &&& t.len() > 0 && l.len() > 0 && is_digit(l[0])
                    &&& tokens(l).len() >= 4
                    &&& parse_u64_spec(remove_char(tokens(l)[0], ',')) == Some(b)
                    &&& forall|k: int|
                        0 <= k < 4 ==> (#[trigger] w[k]).0 <= w[k].1 <= v@.len()
                            && v@.subrange(w[k].0 as int, w[k].1 as int) == tokens(l)[k]
                },
            }
        }),
{
    let n = v.len();
    assert(v@.subrange(0, n as int) =~= v@);
    let end = trim_end_crlf_index(v, 0, n);
    if end == 0 {
        return LineShape::Nothing;
    }
    let b = trim_start_index(v, 0, end);
    if b == end {
        return LineShape::Nothing;
    }
    if !is_ascii_digit(v[b]) {
        return LineShape::File(end);
    }
    let w = match four_words(v, b, end) {
        Some(w) => w,
        None => {
            return LineShape::Nothing;
        },
    };
    let digits = without_char(v, w[0].0, w[0].1, ',');
    assert(digits@.subrange(0, digits@.len() as int) =~= digits@);
    match parse_u64_at(&digits, 0, digits.len()) {
        Some(x) => LineShape::Progress(x, w),
        None => LineShape::Nothing,
    }
}

/// Parse one fragment of rsync output. Returns None if the fragment
/// is not a recognized progress or filename line.
///
/// `--info=progress2` prints lines that look like:
///   "       32,768   0%    0.00kB/s    0:00:00"
///   "    1,048,576  50%    1.23MB/s    0:00:02 (xfr#1, to-chk=2/4)"
/// Filenames appear on their own lines (no leading whitespace + digit).
pub fn parse_progress_line(line: &str) -> (r: Option<ProgressFields>)
    requires
        progress_fits(line@),
    ensures
        match r {
            Some(p) => progress_spec(line@) == Some(p@),
            None => progress_spec(line@) is None,
        },
{
    let v = chars_of(line);
    match line_shape(&v) {
        LineShape::Nothing => None,
        LineShape::File(end) => Some(
            ProgressFields {
                bytes_transferred: 0,
                percent_text: None,
                rate: None,
                eta_seconds: None,
                current_file: Some(string_of(&v, 0, end)),
            },
        ),
        LineShape::Progress(bytes, w) => {
            let pe = trim_end_char_index(&v, w[1].0, w[1].1, '%');
            let percent_text = string_of(&v, w[1].0, pe);
            let rate = parse_rate(&v, w[2].0, w[2].1);
            let eta_seconds = parse_eta_at(&v, w[3].0, w[3].1);
            Some(
                ProgressFields {
                    bytes_transferred: bytes,
                    percent_text: Some(percent_text),
                    rate,
                    eta_seconds,
                    current_file: None,
                },
            )
        },
    }
}

/// Whether `parse_progress_line` may be called on `line`: where the line is
/// a progress line, its remaining time in seconds fits in `u64`.
pub fn progress_line_fits(line: &str) -> (r: bool)
    ensures
        r == progress_fits(line@),
{
    let v = chars_of(line);
    match line_shape(&v) {
        LineShape::Progress(_, w) => eta_fits_at(&v, w[3].0, w[3].1),
        _ => true,
    }
}

/// Whether the duration in `v[lo..hi]`, where it has a total, fits in `u64`.
fn eta_fits_at(v: &Vec<char>, lo: usize, hi: usize) -> (r: bool)
    requires
        lo <= hi <= v@.len(),
    ensures
        r == eta_fits(v@.subrange(lo as int, hi as int)),
{
    match eta_parts_at(v, lo, hi) {
        Some((h, m, sec)) => {
            let total: u128 = (h as u128) * 3600 + (m as u128) * 60 + (sec as u128);
            total <= u64::MAX as u128
        },
        None => true,
    }
}


/// Law: a trailing `'\r'` or `'\n'` never changes what a line means, nor
/// whether it may be read.
pub proof fn lemma_progress_ignores_separator(line: Seq<char>, c: char)
    requires
        c == '\r' || c == '\n',
    ensures
        progress_spec(line.push(c)) == progress_spec(line),
        progress_fits(line.push(c)) == progress_fits(line),
{
    assert(line.push(c).drop_last() =~= line);
    assert(trim_end_crlf(line.push(c)) == trim_end_crlf(line));
}

/// A byte that ends a record of rsync's output: a newline, or the carriage
/// return with which rsync rewrites its progress line.
pub open spec fn is_record_end(b: u8) -> bool {
    b == 10 || b == 13
}

/// The complete records of `data` and the unfinished rest after them. A
/// record runs up to and including the first newline or carriage return
/// after the previous one.
pub open spec fn split_spec(data: Seq<u8>) -> (Seq<Seq<u8>>, Seq<u8>)
    decreases data.len(),
{
    if data.len() == 0 {
        (seq![], seq![])
    } else {
        let (records, rest) = split_spec(data.drop_last());
        let cur = rest.push(data.last());
        if is_record_end(data.last()) {
            (records.push(cur), seq![])
        } else {
            (records, cur)
        }
    }
}

/// The byte strings of `rs` joined in order.
pub open spec fn joined_bytes(rs: Seq<Seq<u8>>) -> Seq<u8>
    decreases rs.len(),
{
    if rs.len() == 0 {
        seq![]
    } else {
        joined_bytes(rs.drop_last()) + rs.last()
    }
}

/// A complete record: it is not empty, ends with a newline or carriage
/// return, and holds no other.
pub open spec fn is_record(r: Seq<u8>) -> bool {
    &&& r.len() > 0
    &&& is_record_end(r.last())
    &&& forall|k: int| 0 <= k < r.len() - 1 ==> !is_record_end(#[trigger] r[k])
}

/// Splits the bytes read so far from rsync's output into its complete
/// records, in order, and the unfinished rest, which waits for more bytes.
pub fn split_records(data: &[u8]) -> (r: (Vec<Vec<u8>>, Vec<u8>))
    ensures
        r.0.deep_view() == split_spec(data@).0,
        r.1@ == split_spec(data@).1,
{
    let mut records: Vec<Vec<u8>> = Vec::new();
    let mut cur: Vec<u8> = Vec::new();
    let mut i: usize = 0;
    while i < data.len()
        invariant
            i <= data@.len(),
            records.deep_view() == split_spec(data@.take(i as int)).0,
            cur@ == split_spec(data@.take(i as int)).1,
        decreases data@.len() - i,
    {
        let b = data[i];
        assert(data@.take(i + 1).drop_last() =~= data@.take(i as int));
        assert(data@.take(i + 1).last() == b);
        cur.push(b);
        if b == 10u8 || b == 13u8 {
            let done = cur;
            let ghost before = records.deep_view();
            assert(done.deep_view() =~= done@);
            records.push(done);
            assert(records.deep_view() =~= before.push(done@));
            cur = Vec::new();
        }
        i = i + 1;
    }
    assert(data@.take(data@.len() as int) =~= data@);
    (records, cur)
}

/// The unfinished rest holds no newline or carriage return.
pub proof fn lemma_rest_has_no_end(data: Seq<u8>)
    ensures
        forall|k: int|
            0 <= k < split_spec(data).1.len() ==> !is_record_end(#[trigger] split_spec(data).1[k]),
    decreases data.len(),
{
    if data.len() > 0 {
        lemma_rest_has_no_end(data.drop_last());
        let rest = split_spec(data.drop_last()).1;
        if !is_record_end(data.last()) {
            assert forall|k: int| 0 <= k < rest.push(data.last()).len() implies !is_record_end(
                #[trigger] rest.push(data.last())[k],
            ) by {
                if k < rest.len() {
                    assert(rest.push(data.last())[k] == rest[k]);
                }
            }
        }
    }
}

/// Law: the records and the rest, joined, give back the bytes; each record
/// is complete.
pub proof fn lemma_split_parts(data: Seq<u8>)
    ensures
        joined_bytes(split_spec(data).0) + split_spec(data).1 == data,
        forall|i: int| 0 <= i < split_spec(data).0.len() ==> is_record(#[trigger] split_spec(data).0[i]),
    decreases data.len(),
{
    if data.len() == 0 {
        assert(joined_bytes(Seq::<Seq<u8>>::empty()) + Seq::<u8>::empty() =~= data);
    } else {
        let front = data.drop_last();
        lemma_split_parts(front);
        lemma_rest_has_no_end(front);
        let (records, rest) = split_spec(front);
        let cur = rest.push(data.last());
        assert(front.push(data.last()) =~= data);
        if is_record_end(data.last()) {
            assert(records.push(cur).drop_last() =~= records);
            assert(joined_bytes(records.push(cur)) + Seq::<u8>::empty() =~= data);
            assert forall|i: int| 0 <= i < records.push(cur).len() implies is_record(
                #[trigger] records.push(cur)[i],
            ) by {
                if i == records.len() {
                    assert forall|k: int| 0 <= k < cur.len() - 1 implies !is_record_end(
                        #[trigger] cur[k],
                    ) by {
                        assert(cur[k] == rest[k]);
                    }
                } else {
                    assert(records.push(cur)[i] == records[i]);
                }
            }
        } else {
            assert(joined_bytes(records) + cur =~= data);
        }
    }
}

/// Splitting bytes that hold no newline or carriage return gives no record.
proof fn lemma_split_no_end(data: Seq<u8>)
    requires
        forall|k: int| 0 <= k < data.len() ==> !is_record_end(#[trigger] data[k]),
    ensures
        split_spec(data) == (Seq::<Seq<u8>>::empty(), data),
    decreases data.len(),
{
    if data.len() > 0 {
        let front = data.drop_last();
        assert forall|k: int| 0 <= k < front.len() implies !is_record_end(#[trigger] front[k]) by {
            assert(front[k] == data[k]);
        }
        lemma_split_no_end(front);
        assert(data[data.len() - 1] == data.last());
        assert(front.push(data.last()) =~= data);
    }
}

/// Law: reading the output in chunks gives the same records as reading it
/// whole: the records of `a + b` are those of `a`, then those of the rest of
/// `a` followed by `b`.
pub proof fn lemma_split_in_chunks(a: Seq<u8>, b: Seq<u8>)
    ensures
        split_spec(a + b) == ({
            let (ra, rest) = split_spec(a);
            let (rb, rest_b) = split_spec(rest + b);
            (ra + rb, rest_b)
        }),
    decreases b.len(),
{
    let (ra, rest) = split_spec(a);
    if b.len() == 0 {
        assert(a + b =~= a);
        assert(rest + b =~= rest);
        lemma_rest_has_no_end(a);
        lemma_split_no_end(rest);
        assert(ra + Seq::<Seq<u8>>::empty() =~= ra);
    } else {
        let bf = b.drop_last();
        lemma_split_in_chunks(a, bf);
        assert((a + b).drop_last() =~= a + bf);
        assert((a + b).last() == b.last());
        assert((rest + b).drop_last() =~= rest + bf);
        assert((rest + b).last() == b.last());
        let (rb, rest_b) = split_spec(rest + bf);
        assert((ra + rb).push(rest_b.push(b.last())) =~= ra + rb.push(rest_b.push(b.last())));
    }
}

} // verus!
