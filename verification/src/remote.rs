//! Commands run on the remote machine over ssh: checking that a path exists
//! and creating a directory.
use vstd::prelude::*;
use crate::rsync::push_text;
use crate::text::{chars_of, contains_at, contains_seq, push_char};

verus! {

/// What checking a remote path found.
#[derive(Debug, PartialEq)]
pub enum PathProbeResult {
    Exists,
    Missing,
    SshFailed(String),
}

/// How one character is written inside single quotes: a quote closes the
/// quoted text, is written escaped, and reopens it.
pub open spec fn escape_piece(c: char) -> Seq<char> {
    if c == '\'' {
        seq!['\'', '\\', '\'', '\'']
    } else {
        seq![c]
    }
}

/// The escaped characters of `s`, without the surrounding quotes.
pub open spec fn escape_body(s: Seq<char>) -> Seq<char>
    decreases s.len(),
{
    if s.len() == 0 {
        seq![]
    } else {
        escape_piece(s[0]) + escape_body(s.drop_first())
    }
}

/// `s` as one single-quoted word for a POSIX shell.
pub open spec fn shell_quoted(s: Seq<char>) -> Seq<char> {
    seq!['\''] + escape_body(s) + seq!['\'']
}

pub proof fn lemma_escape_push(s: Seq<char>, c: char)
    ensures
        escape_body(s.push(c)) == escape_body(s) + escape_piece(c),
    decreases s.len(),
{
    if s.len() == 0 {
        assert(s.push(c).drop_first() =~= Seq::<char>::empty());
        assert(escape_body(Seq::<char>::empty()) == Seq::<char>::empty());
        assert(escape_body(s.push(c)) == escape_piece(c) + escape_body(s.push(c).drop_first()));
        assert(escape_body(s.push(c)) =~= escape_piece(c));
        assert(escape_body(s) + escape_piece(c) =~= escape_piece(c));
    } else {
        assert(s.push(c).drop_first() =~= s.drop_first().push(c));
        lemma_escape_push(s.drop_first(), c);
        assert(escape_body(s.push(c)) =~= escape_body(s) + escape_piece(c));
    }
}

/// Single-quote escape for POSIX shells.
pub fn shell_escape(s: &str) -> (r: String)
    ensures
        r@ == shell_quoted(s@),
{
    let v = chars_of(s);
    let mut r = String::new();
    push_char(&mut r, '\'');
    let mut i: usize = 0;
    assert(v@.take(0) =~= Seq::<char>::empty());
    while i < v.len()
        invariant
            i <= v@.len(),
            r@ == seq!['\''] + escape_body(v@.take(i as int)),
        decreases v@.len() - i,
    {
        let c = v[i];
        proof {
            assert(v@.take(i + 1) =~= v@.take(i as int).push(c));
            lemma_escape_push(v@.take(i as int), c);
        }
        if c == '\'' {
            push_char(&mut r, '\'');
            push_char(&mut r, '\\');
            push_char(&mut r, '\'');
            push_char(&mut r, '\'');
        } else {
            push_char(&mut r, c);
        }
        assert(r@ =~= seq!['\''] + escape_body(v@.take(i + 1)));
        i = i + 1;
    }
    push_char(&mut r, '\'');
    assert(v@.take(i as int) =~= s@);
    assert(r@ =~= shell_quoted(s@));
    r
}

/// How a POSIX shell reads a word made only of single-quoted pieces and
/// backslash-escaped characters: the characters it stands for, or `None`
/// for a word with an unclosed quote or with any other unquoted character.
pub open spec fn sh_read(w: Seq<char>, quoted: bool) -> Option<Seq<char>>
    decreases w.len(),
{
    if w.len() == 0 {
        if quoted {
            None
        } else {
            Some(seq![])
        }
    } else if quoted {
        if w[0] == '\'' {
            sh_read(w.drop_first(), false)
        } else {
            match sh_read(w.drop_first(), true) {
                Some(r) => Some(seq![w[0]] + r),
                None => None,
            }
        }
    } else if w[0] == '\'' {
        sh_read(w.drop_first(), true)
    } else if w[0] == '\\' && w.len() >= 2 {
        match sh_read(w.skip(2), false) {
            Some(r) => Some(seq![w[1]] + r),
            None => None,
        }
    } else {
        None
    }
}

proof fn lemma_read_escaped(s: Seq<char>, rest: Seq<char>)
    ensures
        sh_read(escape_body(s) + rest, true) == match sh_read(rest, true) {
            Some(x) => Some(s + x),
            None => None,
        },
    decreases s.len(),
{
    if s.len() == 0 {
        assert(escape_body(s) + rest =~= rest);
        match sh_read(rest, true) {
            Some(x) => {
                assert(s + x =~= x);
            },
            None => {},
        }
    } else {
        let c = s[0];
        let t = s.drop_first();
        lemma_read_escaped(t, rest);
        let tail = escape_body(t) + rest;
        assert(escape_body(s) == escape_piece(c) + escape_body(t));
        if c == '\'' {
            let w = escape_body(s) + rest;
            assert(w =~= seq!['\'', '\\', '\'', '\''] + tail);
            let w1 = w.drop_first();
            assert(w1 =~= seq!['\\', '\'', '\''] + tail);
            let w3 = seq!['\''] + tail;
            assert(w1.skip(2) =~= w3);
            assert(w3.drop_first() =~= tail);
            assert(sh_read(w, true) == sh_read(w1, false));
            assert(sh_read(w3, false) == sh_read(tail, true));
            assert(sh_read(w1, false) == match sh_read(w3, false) {
                Some(r) => Some(seq![w1[1]] + r),
                None => None,
            });
            match sh_read(rest, true) {
                Some(x) => {
                    assert(seq!['\''] + (t + x) =~= s + x);
                },
                None => {},
            }
        } else {
            let w = escape_body(s) + rest;
            assert(w =~= seq![c] + tail);
            assert(w.drop_first() =~= tail);
            assert(sh_read(w, true) == match sh_read(tail, true) {
                Some(r) => Some(seq![w[0]] + r),
                None => None,
            });
            match sh_read(rest, true) {
                Some(x) => {
                    assert(seq![c] + (t + x) =~= s + x);
                },
                None => {},
            }
        }
    }
}

/// Law: the shell reads the escaped word back as exactly the text it was made from,
/// whatever characters it holds, so no part of it is ever interpreted.
pub proof fn lemma_shell_escape_round_trip(s: Seq<char>)
    ensures
        sh_read(shell_quoted(s), false) == Some(s),
{
    let w = shell_quoted(s);
    assert(w.drop_first() =~= escape_body(s) + seq!['\'']);
    assert(sh_read(w, false) == sh_read(w.drop_first(), true));
    lemma_read_escaped(s, seq!['\'']);
    assert(seq!['\''].drop_first() =~= Seq::<char>::empty());
    assert(sh_read(seq!['\''], true) == sh_read(Seq::<char>::empty(), false));
    assert(s + Seq::<char>::empty() =~= s);
}


/// `user@host`, the login that ssh is given.
pub open spec fn ssh_target(user: Seq<char>, host: Seq<char>) -> Seq<char> {
    user + "@"@ + host
}

/// The arguments of an ssh call that runs `command` as `user` on `host`:
/// never prompting, accepting a new host key, giving up on connecting
/// after five seconds.
pub open spec fn ssh_args_spec(user: Seq<char>, host: Seq<char>, command: Seq<char>) -> Seq<
    Seq<char>,
> {
    seq![
        "-o"@,
        "BatchMode=yes"@,
        "-o"@,
        "StrictHostKeyChecking=accept-new"@,
        "-o"@,
        "ConnectTimeout=5"@,
        ssh_target(user, host),
        command,
    ]
}

/// The arguments for `ssh` to run `command` as `user` on `host`.
pub fn ssh_args(user: &str, host: &str, command: &str) -> (r: Vec<String>)
    ensures
        r.deep_view() == ssh_args_spec(user@, host@, command@),
{
    let mut r: Vec<String> = Vec::new();
    push_text(&mut r, String::from_str("-o"));
    push_text(&mut r, String::from_str("BatchMode=yes"));
    push_text(&mut r, String::from_str("-o"));
    push_text(&mut r, String::from_str("StrictHostKeyChecking=accept-new"));
    push_text(&mut r, String::from_str("-o"));
    push_text(&mut r, String::from_str("ConnectTimeout=5"));
    let mut target = String::from_str(user);
    target.append("@");
    target.append(host);
    push_text(&mut r, target);
    push_text(&mut r, String::from_str(command));
    assert(r.deep_view() =~= ssh_args_spec(user@, host@, command@));
    r
}

/// The remote shell command that reports whether `path` is an existing
/// directory.
pub open spec fn probe_command_spec(path: Seq<char>) -> Seq<char> {
    "test -d "@ + shell_quoted(path) + " && echo OK || echo MISSING"@
}

/// The remote shell command that prints `OK` when `path` is an existing
/// directory and `MISSING` otherwise.
pub fn probe_command(path: &str) -> (r: String)
    ensures
        r@ == probe_command_spec(path@),
{
    let mut r = String::from_str("test -d ");
    let quoted = shell_escape(path);
    r.append(quoted.as_str());
    r.append(" && echo OK || echo MISSING");
    r
}

/// The remote shell command that creates `path` with its parents.
pub open spec fn mkdir_command_spec(path: Seq<char>) -> Seq<char> {
    "mkdir -p "@ + shell_quoted(path)
}

/// The remote shell command that creates `path` and its missing parents.
pub fn mkdir_command(path: &str) -> (r: String)
    ensures
        r@ == mkdir_command_spec(path@),
{
    let mut r = String::from_str("mkdir -p ");
    let quoted = shell_escape(path);
    r.append(quoted.as_str());
    r
}

/// What a finished command printed and whether it succeeded; its output
/// is read as UTF-8, invalid sequences replaced.
#[derive(Debug, PartialEq)]
pub struct CommandOutput {
    pub success: bool,
    pub stdout: String,
    pub stderr: String,
}

/// What probing a remote directory found: when ssh ran and succeeded, the
/// directory exists exactly when `OK` was printed; when it ran and failed, its error
/// output; when it could not be run, the reason.
pub fn probe_outcome(output: Result<CommandOutput, String>) -> (r: PathProbeResult)
    ensures
        match output {
            Ok(o) => if o.success {
                if contains_seq(o.stdout@, "OK"@) {
                    r is Exists
                } else {
                    r is Missing
                }
            } else {
                r matches PathProbeResult::SshFailed(m) && m@ == o.stderr@
            },
            Err(e) => r matches PathProbeResult::SshFailed(m) && m@ == e@,
        },
{
    match output {
        Ok(o) => {
            if o.success {
                let v = chars_of(o.stdout.as_str());
                let ok = chars_of("OK");
                assert(v@.subrange(0, v@.len() as int) =~= v@);
                if contains_at(&v, 0, v.len(), &ok) {
                    PathProbeResult::Exists
                } else {
                    PathProbeResult::Missing
                }
            } else {
                PathProbeResult::SshFailed(o.stderr)
            }
        },
        Err(e) => PathProbeResult::SshFailed(e),
    }
}

/// What creating a remote directory came to: success when ssh ran and
/// succeeded; otherwise ssh's error output, or why it could not be run.
pub fn create_dir_outcome(output: Result<CommandOutput, String>) -> (r: Result<(), String>)
    ensures
        match output {
            Ok(o) => if o.success {
                r is Ok
            } else {
                r matches Err(m) && m@ == o.stderr@
            },
            Err(e) => r matches Err(m) && m@ == e@,
        },
{
    match output {
        Ok(o) => {
            if o.success {
                Ok(())
            } else {
                Err(o.stderr)
            }
        },
        Err(e) => Err(e),
    }
}

} // verus!
