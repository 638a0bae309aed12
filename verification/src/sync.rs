//! Reading the outcome of rsync runs: the dry-run summary, and the result
//! of a real run.
use vstd::prelude::*;
use crate::pairs::{LastSync, SyncDirection, SyncStatus};
use crate::rsync::RsyncConfig;
use crate::text::{
    chars_of, decimal, decimal_string, has_prefix, has_prefix_at, is_ascii_digit, is_digit,
    lines, next_line, next_token, parse_u64_at, parse_u64_spec, string_of, tokens,
    trim_end_index, trim_end_ws,
};

verus! {

/// What a dry run found: how many files rsync would copy, delete and
/// update, the bytes it would transfer, and one entry per file (`+ name`,
/// `D name`, `M name`).
#[derive(Debug, PartialEq)]
pub struct DryRunSummary {
    pub files_to_copy: u32,
    pub files_to_delete: u32,
    pub files_to_update: u32,
    pub total_bytes: u64,
    pub file_list: Vec<String>,
}

/// A dry-run summary with unbounded counts and texts as characters.
#[verifier::ext_equal]
pub struct SummaryView {
    pub files_to_copy: nat,
    pub files_to_delete: nat,
    pub files_to_update: nat,
    pub total_bytes: u64,
    pub file_list: Seq<Seq<char>>,
}

impl View for DryRunSummary {
    type V = SummaryView;

    open spec fn view(&self) -> SummaryView {
        SummaryView {
            files_to_copy: self.files_to_copy as nat,
            files_to_delete: self.files_to_delete as nat,
            files_to_update: self.files_to_update as nat,
            total_bytes: self.total_bytes,
            file_list: self.file_list.deep_view(),
        }
    }
}

/// The digits of `s`, in order.
pub open spec fn keep_digits(s: Seq<char>) -> Seq<char>
    decreases s.len(),
{
    if s.len() == 0 {
        seq![]
    } else if is_digit(s.last()) {
        keep_digits(s.drop_last()).push(s.last())
    } else {
        keep_digits(s.drop_last())
    }
}

/// The entry for a file: a marker, a space and the line's second word, when
/// the line has one.
pub open spec fn with_entry(list: Seq<Seq<char>>, marker: Seq<char>, line: Seq<char>) -> Seq<
    Seq<char>,
> {
    if tokens(line).len() > 1 {
        list.push(marker + tokens(line)[1])
    } else {
        list
    }
}

/// How one line of itemized rsync output (trailing whitespace removed)
/// changes the summary: `*deleting` lines are deletions, `>f+++++++++`
/// lines new files, other `>f` lines updates, and the
/// `Total transferred file size:` line gives the byte total (its digits,
/// or 0 when they do not make a `u64`).
pub open spec fn apply_line(acc: SummaryView, line: Seq<char>) -> SummaryView {
    if has_prefix(line, "*deleting"@) {
        SummaryView {
            files_to_delete: acc.files_to_delete + 1,
            file_list: with_entry(acc.file_list, "D "@, line),
            ..acc
        }
    } else if has_prefix(line, ">f+++++++++"@) {
        SummaryView {
            files_to_copy: acc.files_to_copy + 1,
            file_list: with_entry(acc.file_list, "+ "@, line),
            ..acc
        }
    } else if has_prefix(line, ">f"@) {
        SummaryView {
            files_to_update: acc.files_to_update + 1,
            file_list: with_entry(acc.file_list, "M "@, line),
            ..acc
        }
    } else if has_prefix(line, "Total transferred file size:"@) {
        SummaryView {
            total_bytes: match parse_u64_spec(
                keep_digits(line.skip("Total transferred file size:"@.len() as int)),
            ) {
                Some(n) => n,
                None => 0,
            },
            ..acc
        }
    } else {
        acc
    }
}

/// Applies the lines in order, each without its trailing whitespace.
pub open spec fn fold_lines(acc: SummaryView, ls: Seq<Seq<char>>) -> SummaryView
    decreases ls.len(),
{
    if ls.len() == 0 {
        acc
    } else {
        fold_lines(apply_line(acc, trim_end_ws(ls[0])), ls.drop_first())
    }
}

pub open spec fn empty_summary() -> SummaryView {
    SummaryView {
        files_to_copy: 0,
        files_to_delete: 0,
        files_to_update: 0,
        total_bytes: 0,
        file_list: seq![],
    }
}

/// The summary of a whole dry-run output.
pub open spec fn dry_run_spec(s: Seq<char>) -> SummaryView {
    fold_lines(empty_summary(), lines(s))
}

/// The counts of a summary fit in `u32`.
pub open spec fn counts_fit(v: SummaryView) -> bool {
    v.files_to_copy <= u32::MAX && v.files_to_delete <= u32::MAX && v.files_to_update
        <= u32::MAX
}

/// Counts only grow as lines are applied.
pub proof fn lemma_fold_grows(acc: SummaryView, ls: Seq<Seq<char>>)
    ensures
        acc.files_to_copy <= fold_lines(acc, ls).files_to_copy,
        acc.files_to_delete <= fold_lines(acc, ls).files_to_delete,
        acc.files_to_update <= fold_lines(acc, ls).files_to_update,
    decreases ls.len(),
{
    if ls.len() > 0 {
        lemma_fold_grows(apply_line(acc, trim_end_ws(ls[0])), ls.drop_first());
    }
}


/// The digits of `v[lo..hi]`.
fn keep_digits_at(v: &Vec<char>, lo: usize, hi: usize) -> (w: Vec<char>)
    requires
        lo <= hi <= v@.len(),
    ensures
        w@ == keep_digits(v@.subrange(lo as int, hi as int)),
{
    let mut w: Vec<char> = Vec::new();
    let mut i = lo;
    while i < hi
        invariant
            lo <= i <= hi <= v@.len(),
            w@ == keep_digits(v@.subrange(lo as int, i as int)),
        decreases hi - i,
    {
        assert(v@.subrange(lo as int, i + 1).drop_last() =~= v@.subrange(lo as int, i as int));
        if is_ascii_digit(v[i]) {
            w.push(v[i]);
        }
        i = i + 1;
    }
    w
}

/// Appends `marker` and the second word of `v[lo..hi]`, if it has one.
fn add_entry(list: &mut Vec<String>, v: &Vec<char>, lo: usize, hi: usize, marker: &str)
    requires
        lo <= hi <= v@.len(),
    ensures
        final(list).deep_view() == with_entry(old(list).deep_view(), marker@, v@.subrange(
            lo as int,
            hi as int,
        )),
{
    if let Some((_b0, e0)) = next_token(v, lo, hi) {
        if let Some((b1, e1)) = next_token(v, e0, hi) {
            let mut entry = String::from_str(marker);
            let name = string_of(v, b1, e1);
            entry.append(name.as_str());
            let ghost before = list.deep_view();
            list.push(entry);
            assert(list.deep_view() =~= before.push(entry@));
        }
    }
}

/// Reads the itemized output of an rsync dry run (`-i --stats`) into a
/// summary of what the real run would do.
pub fn parse_dry_run_output(s: &str) -> (r: DryRunSummary)
    requires
        counts_fit(dry_run_spec(s@)),
    ensures
        r@ == dry_run_spec(s@),
{
    let v = chars_of(s);
    let n = v.len();
    let del = chars_of("*deleting");
    let newf = chars_of(">f+++++++++");
    let upd = chars_of(">f");
    let tot = chars_of("Total transferred file size:");
    let mut r = DryRunSummary {
        files_to_copy: 0,
        files_to_delete: 0,
        files_to_update: 0,
        total_bytes: 0,
        file_list: Vec::new(),
    };
    assert(r@ =~= empty_summary());
    assert(v@.subrange(0, n as int) =~= v@);
    let mut pos: usize = 0;
    while pos < n
        invariant
            pos <= n == v@.len(),
            v@ == s@,
            del@ == "*deleting"@,
            newf@ == ">f+++++++++"@,
            upd@ == ">f"@,
            tot@ == "Total transferred file size:"@,
            counts_fit(dry_run_spec(s@)),
            fold_lines(r@, lines(v@.subrange(pos as int, n as int))) == dry_run_spec(s@),
        decreases n - pos,
    {
        let (le, next) = next_line(&v, pos);
        let ghost ls = lines(v@.subrange(pos as int, n as int));
        let e = trim_end_index(&v, pos, le);
        let ghost line = v@.subrange(pos as int, e as int);
        assert(line == trim_end_ws(ls[0]));
        proof {
            lemma_fold_grows(apply_line(r@, line), ls.drop_first());
        }
        let ghost before = r@;
        if has_prefix_at(&v, pos, e, &del) {
            r.files_to_delete = r.files_to_delete + 1;
            add_entry(&mut r.file_list, &v, pos, e, "D ");
        } else if has_prefix_at(&v, pos, e, &newf) {
            r.files_to_copy = r.files_to_copy + 1;
            add_entry(&mut r.file_list, &v, pos, e, "+ ");
        } else if has_prefix_at(&v, pos, e, &upd) {
            r.files_to_update = r.files_to_update + 1;
            add_entry(&mut r.file_list, &v, pos, e, "M ");
        } else if has_prefix_at(&v, pos, e, &tot) {
            let d = keep_digits_at(&v, pos + tot.len(), e);
            assert(line.skip(tot@.len() as int) =~= v@.subrange(pos + tot@.len(), e as int));
            assert(d@.subrange(0, d@.len() as int) =~= d@);
            r.total_bytes = match parse_u64_at(&d, 0, d.len()) {
                Some(x) => x,
                None => 0,
            };
        }
        assert(r@ =~= apply_line(before, line));
        pos = next;
    }
    assert(lines(v@.subrange(pos as int, n as int)) =~= Seq::<Seq<char>>::empty());
    r
}


/// The configuration of the dry run that previews a run: the same, with
/// `dry_run` set.
pub fn dry_run_config(config: &RsyncConfig) -> (r: RsyncConfig)
    ensures
        r@ == (crate::rsync::ConfigView { dry_run: true, ..config@ }),
{
    let mut r = config.clone();
    r.dry_run = true;
    r
}

/// The outcome of a dry run from what rsync printed: its summary when it
/// exited successfully, otherwise the failure with rsync's error output.
pub fn dry_run_outcome(success: bool, stdout: &str, stderr: &str) -> (r: Result<
    DryRunSummary,
    String,
>)
    requires
        success ==> counts_fit(dry_run_spec(stdout@)),
    ensures
        success ==> (r matches Ok(summary) && summary@ == dry_run_spec(stdout@)),
        !success ==> (r matches Err(m) && m@ == "rsync dry-run failed: "@ + stderr@),
{
    if !success {
        let mut m = String::from_str("rsync dry-run failed: ");
        m.append(stderr);
        return Err(m);
    }
    Ok(parse_dry_run_output(stdout))
}

/// How a finished rsync run ended.
#[derive(Debug, PartialEq)]
pub struct SyncResult {
    pub exit_code: i32,
    pub message: String,
    pub stderr_tail: String,
}

/// What the exit status of a process says: its exit code, if it exited
/// with one, and whether it succeeded.
#[derive(Debug, Clone, Copy, PartialEq, Eq)]
pub struct ExitInfo {
    pub code: Option<i32>,
    pub success: bool,
}

/// The message shown for a run: done or failed.
pub open spec fn outcome_message(success: bool) -> Seq<char> {
    if success {
        "完成"@
    } else {
        "失败"@
    }
}

/// The status recorded for a run: success when the process exited
/// successfully, interrupted when no exit status could be had, failed
/// otherwise.
pub open spec fn outcome_status(exit: Option<ExitInfo>) -> SyncStatus {
    match exit {
        Some(e) => if e.success {
            SyncStatus::Success
        } else {
            SyncStatus::Failed
        },
        None => SyncStatus::Interrupted,
    }
}

/// The result reported for a finished run and the record kept for its pair.
/// `exit` is `None` when the process's exit status could not be had.
pub fn sync_outcome(
    exit: Option<ExitInfo>,
    stderr_tail: String,
    direction: SyncDirection,
    timestamp: i64,
) -> (r: (SyncResult, LastSync))
    ensures
        r.0.exit_code == (match exit {
            Some(e) => match e.code {
                Some(c) => c as int,
                None => -1,
            },
            None => -1,
        }),
        r.0.message@ == outcome_message(exit matches Some(e) && e.success),
        r.0.stderr_tail == stderr_tail,
        r.1.direction == direction,
        r.1.timestamp == timestamp,
        r.1.status == outcome_status(exit),
        r.1.message@ == record_message(r.0.message@, r.0.exit_code as int, stderr_summary(
            stderr_tail@,
        )),
{
    let success = match exit {
        Some(e) => e.success,
        None => false,
    };
    let exit_code = match exit {
        Some(e) => match e.code {
            Some(c) => c,
            None => -1,
        },
        None => -1,
    };
    let message = if success {
        String::from_str("完成")
    } else {
        String::from_str("失败")
    };
    let status = match exit {
        Some(e) => if e.success {
            SyncStatus::Success
        } else {
            SyncStatus::Failed
        },
        None => SyncStatus::Interrupted,
    };
    let summary = stderr_summary_text(stderr_tail.as_str());
    let mut record = message.clone();
    record.append(" (exit ");
    let code_text = signed_decimal_string(exit_code);
    record.append(code_text.as_str());
    record.append(")");
    if summary.as_str().unicode_len() > 0 {
        record.append(": ");
        record.append(summary.as_str());
    }
    let last = LastSync { direction, timestamp, status, message: record };
    (SyncResult { exit_code, message, stderr_tail }, last)
}

/// The last line of `ls` that is not blank, its trailing whitespace
/// removed, or `latest` when none is.
pub open spec fn last_nonblank_or(ls: Seq<Seq<char>>, latest: Seq<char>) -> Seq<char>
    decreases ls.len(),
{
    if ls.len() == 0 {
        latest
    } else {
        let t = trim_end_ws(ls[0]);
        last_nonblank_or(ls.drop_first(), if t.len() > 0 {
            t
        } else {
            latest
        })
    }
}

/// The summary of rsync's error output: its last line that is not blank,
/// trailing whitespace removed; empty when there is none.
pub open spec fn stderr_summary(stderr: Seq<char>) -> Seq<char> {
    last_nonblank_or(lines(stderr), seq![])
}

/// An integer in decimal, with a minus sign when negative.
pub open spec fn signed_decimal(n: int) -> Seq<char> {
    if n < 0 {
        "-"@ + decimal((-n) as nat)
    } else {
        decimal(n as nat)
    }
}

/// The message kept as a pair's last sync: the run's message, its exit
/// code, and the summary of its error output when there is one, as in
/// `失败 (exit 23): rsync error: ...`.
pub open spec fn record_message(message: Seq<char>, code: int, summary: Seq<char>) -> Seq<char> {
    message + " (exit "@ + signed_decimal(code) + ")"@ + if summary.len() > 0 {
        ": "@ + summary
    } else {
        seq![]
    }
}

/// Law: the message kept for a pair begins with the run's message, then
/// gives the exit code.
pub proof fn lemma_record_starts_with_message(message: Seq<char>, code: int, summary: Seq<char>)
    ensures
        has_prefix(record_message(message, code, summary), message),
        has_prefix(
            record_message(message, code, summary).skip(message.len() as int),
            " (exit "@ + signed_decimal(code) + ")"@,
        ),
{
    let r = record_message(message, code, summary);
    assert(r.take(message.len() as int) =~= message);
    let t = " (exit "@ + signed_decimal(code) + ")"@;
    assert(r.skip(message.len() as int).take(t.len() as int) =~= t);
}

/// `n` in decimal, with a minus sign when negative.
pub fn signed_decimal_string(n: i32) -> (r: String)
    ensures
        r@ == signed_decimal(n as int),
{
    if n < 0 {
        let mut r = String::from_str("-");
        let magnitude: i64 = -(n as i64);
        let digits = decimal_string(magnitude as u64);
        r.append(digits.as_str());
        r
    } else {
        decimal_string(n as u64)
    }
}

/// The last line of `text` that is not blank, without its trailing
/// whitespace; empty when there is none.
pub fn stderr_summary_text(text: &str) -> (r: String)
    ensures
        r@ == stderr_summary(text@),
{
    let v = chars_of(text);
    let n = v.len();
    assert(v@.subrange(0, n as int) =~= v@);
    assert(v@.subrange(0, 0) =~= Seq::<char>::empty());
    let mut best_lo: usize = 0;
    let mut best_hi: usize = 0;
    let mut pos: usize = 0;
    while pos < n
        invariant
            pos <= n == v@.len(),
            v@ == text@,
            best_lo <= best_hi <= n,
            last_nonblank_or(lines(v@.subrange(pos as int, n as int)), v@.subrange(
                best_lo as int,
                best_hi as int,
            )) == stderr_summary(text@),
        decreases n - pos,
    {
        let (le, next) = next_line(&v, pos);
        let ghost ls = lines(v@.subrange(pos as int, n as int));
        let e = trim_end_index(&v, pos, le);
        if e > pos {
            best_lo = pos;
            best_hi = e;
        }
        pos = next;
    }
    assert(lines(v@.subrange(pos as int, n as int)) =~= Seq::<Seq<char>>::empty());
    string_of(&v, best_lo, best_hi)
}

/// Law: a run is recorded as a success exactly when its message says done,
/// and as interrupted exactly when it has no exit status.
pub proof fn lemma_outcome_consistent(exit: Option<ExitInfo>)
    ensures
        (outcome_status(exit) == SyncStatus::Success) <==> (outcome_message(
            exit matches Some(e) && e.success,
        ) == "完成"@),
        (outcome_status(exit) == SyncStatus::Interrupted) <==> exit is None,
{
    reveal_strlit("完成");
    reveal_strlit("失败");
    assert("完成"@[0] != "失败"@[0]);

}


/// How many bytes `c` takes in UTF-8.
pub open spec fn utf8_len(c: char) -> nat {
    let u = c as u32;
    if u < 0x80 {
        1
    } else if u < 0x800 {
        2
    } else if u < 0x10000 {
        3
    } else {
        4
    }
}

/// How many bytes `s` takes in UTF-8 (`str::len`).
pub open spec fn byte_len(s: Seq<char>) -> nat
    decreases s.len(),
{
    if s.len() == 0 {
        0
    } else {
        byte_len(s.drop_last()) + utf8_len(s.last())
    }
}

/// The most bytes of rsync's error output that are kept.
pub const STDERR_TAIL_BYTES: usize = 16384;

/// Number of leading characters that take exactly `n` bytes, if `n` falls
/// on a character boundary.
pub open spec fn chars_in_bytes(s: Seq<char>, n: nat) -> Option<nat>
    decreases s.len(),
{
    if n == 0 {
        Some(0)
    } else if s.len() == 0 || n < utf8_len(s[0]) {
        None
    } else {
        match chars_in_bytes(s.drop_first(), (n - utf8_len(s[0])) as nat) {
            Some(k) => Some(k + 1),
            None => None,
        }
    }
}

/// The text with only its last 16384 bytes kept, when it is longer; `None`
/// when the cut would fall inside a character.
pub open spec fn tail_spec(s: Seq<char>) -> Option<Seq<char>> {
    if byte_len(s) <= STDERR_TAIL_BYTES {
        Some(s)
    } else {
        match chars_in_bytes(s, (byte_len(s) - STDERR_TAIL_BYTES) as nat) {
            Some(k) => Some(s.skip(k as int)),
            None => None,
        }
    }
}

fn utf8_width(c: char) -> (r: usize)
    ensures
        r == utf8_len(c),
{
    let u = c as u32;
    if u < 0x80 {
        1
    } else if u < 0x800 {
        2
    } else if u < 0x10000 {
        3
    } else {
        4
    }
}

proof fn lemma_byte_len_take(s: Seq<char>, i: int)
    requires
        0 <= i < s.len(),
    ensures
        byte_len(s.take(i + 1)) == byte_len(s.take(i)) + utf8_len(s[i]),
{
    assert(s.take(i + 1).drop_last() =~= s.take(i));
}

proof fn lemma_chars_in_bytes_step(s: Seq<char>, i: int, n: nat)
    requires
        0 <= i <= s.len(),
        byte_len(s.take(i)) <= n,
    ensures
        chars_in_bytes(s, n) == match chars_in_bytes(s.skip(i), (n - byte_len(s.take(i))) as nat) {
            Some(k) => Some((k + i) as nat),
            None => None::<nat>,
        },
    decreases i,
{
    if i == 0 {
        assert(s.skip(0) =~= s);
        assert(s.take(0) =~= Seq::<char>::empty());
        match chars_in_bytes(s, n) {
            Some(k) => {},
            None => {},
        }
    } else {
        lemma_byte_len_take(s, i - 1);
        lemma_chars_in_bytes_step(s, i - 1, n);
        let t = s.skip(i - 1);
        let m = (n - byte_len(s.take(i - 1))) as nat;
        assert(t[0] == s[i - 1]);
        assert(t.drop_first() =~= s.skip(i));
        assert(m >= utf8_len(t[0]));
        if m == 0 {
            assert(utf8_len(t[0]) >= 1);
        }
    }
}

/// Where the kept tail of `v` starts: `Some(k)` when its last 16384 bytes
/// (or all of it, when shorter) are `v[k..]`; `None` when that cut would
/// fall inside a character.
#[verifier::rlimit(40)]
fn tail_start(v: &Vec<char>) -> (r: Option<usize>)
    ensures
        r is None <==> tail_spec(v@) is None,
        r matches Some(k) ==> k <= v@.len() && tail_spec(v@) == Some(v@.skip(k as int)),
{
    let n = v.len();
    let mut total: u128 = 0;
    let mut i: usize = 0;
    assert(v@.take(0) =~= Seq::<char>::empty());
    while i < n
        invariant
            i <= n == v@.len(),
            total == byte_len(v@.take(i as int)),
            total <= 4 * i,
        decreases n - i,
    {
        proof {
            lemma_byte_len_take(v@, i as int);
        }
        total = total + utf8_width(v[i]) as u128;
        i = i + 1;
    }
    assert(v@.take(n as int) =~= v@);
    if total <= STDERR_TAIL_BYTES as u128 {
        assert(v@.skip(0) =~= v@);
        return Some(0);
    }
    let from: u128 = total - STDERR_TAIL_BYTES as u128;
    let mut acc: u128 = 0;
    let mut k: usize = 0;
    while acc < from
        invariant
            k <= n == v@.len(),
            acc == byte_len(v@.take(k as int)),
            total == byte_len(v@),
            from == byte_len(v@) - STDERR_TAIL_BYTES,
            from < total,
            k > 0 ==> byte_len(v@.take(k - 1)) < from,
        decreases n - k,
    {
        if k == n {
            assert(v@.take(n as int) =~= v@);
        }
        proof {
            lemma_byte_len_take(v@, k as int);
        }
        acc = acc + utf8_width(v[k]) as u128;
        k = k + 1;
    }
    proof {
        if acc > from {
            lemma_chars_in_bytes_step(v@, k - 1, from as nat);
            let t = v@.skip(k - 1);
            lemma_byte_len_take(v@, k - 1);
            assert(t[0] == v@[k - 1]);
        } else {
            lemma_chars_in_bytes_step(v@, k as int, from as nat);
        }
    }
    if acc == from {
        Some(k)
    } else {
        None
    }
}

/// Appends `line` to the kept error output and keeps only its last 16384
/// bytes. The cut must fall between characters.
pub fn append_capped(buf: &mut String, line: &str)
    requires
        tail_spec(old(buf)@ + line@) is Some,
    ensures
        final(buf)@ == tail_spec(old(buf)@ + line@)->0,
{
    buf.append(line);
    let v = chars_of(buf.as_str());
    if let Some(k) = tail_start(&v) {
        if k > 0 {
            *buf = string_of(&v, k, v.len());
            assert(v@.subrange(k as int, v@.len() as int) =~= v@.skip(k as int));
        } else {
            assert(v@.skip(0) =~= v@);
        }
    }
}

/// Whether appending `line` keeps the cut of the error output between
/// characters, as `append_capped` needs.
pub fn tail_cut_fits(buf: &String, line: &str) -> (r: bool)
    ensures
        r == (tail_spec(buf@ + line@) is Some),
{
    let mut joined = buf.clone();
    joined.append(line);
    let v = chars_of(joined.as_str());
    tail_start(&v).is_some()
}


proof fn lemma_byte_len_concat(a: Seq<char>, b: Seq<char>)
    ensures
        byte_len(a + b) == byte_len(a) + byte_len(b),
    decreases b.len(),
{
    if b.len() == 0 {
        assert(a + b =~= a);
    } else {
        lemma_byte_len_concat(a, b.drop_last());
        assert((a + b).drop_last() =~= a + b.drop_last());
    }
}

proof fn lemma_byte_len_first(s: Seq<char>)
    requires
        s.len() > 0,
    ensures
        byte_len(s) == utf8_len(s[0]) + byte_len(s.drop_first()),
{
    assert(s =~= seq![s[0]] + s.drop_first());
    lemma_byte_len_concat(seq![s[0]], s.drop_first());
    let one = seq![s[0]];
    assert(one.drop_last() =~= Seq::<char>::empty());
    assert(byte_len(Seq::<char>::empty()) == 0);
    assert(byte_len(one) == byte_len(one.drop_last()) + utf8_len(one.last()));
}

proof fn lemma_chars_in_bytes_sound(s: Seq<char>, n: nat)
    requires
        chars_in_bytes(s, n) is Some,
    ensures
        chars_in_bytes(s, n)->0 <= s.len(),
        byte_len(s.take(chars_in_bytes(s, n)->0 as int)) == n,
    decreases s.len(),
{
    if n == 0 {
        assert(s.take(0) =~= Seq::<char>::empty());
    } else {
        let m = (n - utf8_len(s[0])) as nat;
        lemma_chars_in_bytes_sound(s.drop_first(), m);
        let k = chars_in_bytes(s.drop_first(), m)->0;
        assert(s.take(k + 1 as int).drop_first() =~= s.drop_first().take(k as int));
        lemma_byte_len_first(s.take(k + 1 as int));
    }
}

/// Law: the kept error output is the end of the whole output, and holds its
/// last 16384 bytes, or all of it when it is shorter.
pub proof fn lemma_tail_is_last_bytes(s: Seq<char>)
    requires
        tail_spec(s) is Some,
    ensures
        ({
            let t = tail_spec(s)->0;
            &&& t.len() <= s.len()
            &&& t == s.skip(s.len() - t.len())
            &&& byte_len(t) == if byte_len(s) <= STDERR_TAIL_BYTES {
                byte_len(s)
            } else {
                STDERR_TAIL_BYTES as nat
            }
        }),
{
    if byte_len(s) > STDERR_TAIL_BYTES {
        let n = (byte_len(s) - STDERR_TAIL_BYTES) as nat;
        lemma_chars_in_bytes_sound(s, n);
        let k = chars_in_bytes(s, n)->0;
        assert(s =~= s.take(k as int) + s.skip(k as int));
        lemma_byte_len_concat(s.take(k as int), s.skip(k as int));
        assert(s.skip(k as int) =~= s.skip(s.len() - s.skip(k as int).len()));
    } else {
        assert(s.skip(0) =~= s);
    }
}

/// The texts of `ls` joined in order.
pub open spec fn joined(ls: Seq<Seq<char>>) -> Seq<char>
    decreases ls.len(),
{
    if ls.len() == 0 {
        seq![]
    } else {
        joined(ls.drop_last()) + ls.last()
    }
}

/// The kept error output after appending each of `ls` in turn to an empty
/// buffer with `append_capped`; `None` once a cut would fall inside a
/// character.
pub open spec fn kept_after(ls: Seq<Seq<char>>) -> Option<Seq<char>>
    decreases ls.len(),
{
    if ls.len() == 0 {
        Some(seq![])
    } else {
        match kept_after(ls.drop_last()) {
            Some(b) => tail_spec(b + ls.last()),
            None => None,
        }
    }
}

/// Cutting the tail of the whole output, or of its kept tail with the same
/// line appended, gives the same result.
pub proof fn lemma_tail_of_tail(e: Seq<char>, line: Seq<char>)
    requires
        tail_spec(e) is Some,
    ensures
        tail_spec(tail_spec(e)->0 + line) == tail_spec(e + line),
{
    let t = tail_spec(e)->0;
    let s = e + line;
    let j: int = e.len() - t.len();
    lemma_tail_is_last_bytes(e);
    assert(e =~= e.take(j) + t);
    lemma_byte_len_concat(e.take(j), t);
    let d = byte_len(e.take(j));
    let tt = t + line;
    assert(s.take(j) =~= e.take(j));
    assert(s.skip(j) =~= tt);
    lemma_byte_len_concat(e, line);
    lemma_byte_len_concat(t, line);
    if byte_len(s) <= STDERR_TAIL_BYTES {
        assert(d == 0);
        assert(byte_len(tt) <= STDERR_TAIL_BYTES);
        if j > 0 {
            lemma_byte_len_first(e.take(j));
            assert(e.take(j)[0] == e[0]);
        }
        assert(tt =~= s);
    } else {
        assert(byte_len(tt) >= STDERR_TAIL_BYTES);
        let ms = (byte_len(s) - STDERR_TAIL_BYTES) as nat;
        let mt = (byte_len(tt) - STDERR_TAIL_BYTES) as nat;
        lemma_chars_in_bytes_step(s, j, ms);
        assert(mt == ms - d);
        match chars_in_bytes(tt, mt) {
            Some(k) => {
                lemma_chars_in_bytes_sound(tt, mt);
                assert(s.skip(k + j) =~= tt.skip(k as int));
            },
            None => {},
        }
        if byte_len(tt) <= STDERR_TAIL_BYTES {
            assert(mt == 0);
            assert(tt.skip(0) =~= tt);
        }
    }
}

/// Law: however the error output arrives, line by line, as long as no cut
/// falls inside a character the kept buffer is the tail of all of it: its
/// last 16384 bytes, or all of it when shorter.
pub proof fn lemma_kept_is_tail_of_all(ls: Seq<Seq<char>>)
    requires
        kept_after(ls) is Some,
    ensures
        kept_after(ls) == tail_spec(joined(ls)),
        byte_len(kept_after(ls)->0) <= STDERR_TAIL_BYTES,
    decreases ls.len(),
{
    if ls.len() == 0 {
        assert(byte_len(Seq::<char>::empty()) == 0);
    } else {
        lemma_kept_is_tail_of_all(ls.drop_last());
        lemma_tail_of_tail(joined(ls.drop_last()), ls.last());
    }
    lemma_tail_is_last_bytes(joined(ls));
}

} // verus!
