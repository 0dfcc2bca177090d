//! Command lines of helper processes.

use crate::text;
use vstd::prelude::*;

verus! {

/// A command line, run with elevated rights on request.
pub open spec fn elevated(cmd: Seq<Seq<char>>, sudo: bool) -> Seq<Seq<char>> {
    if sudo {
        seq!["sudo"@, "--"@] + cmd
    } else {
        cmd
    }
}

/// Puts a command line behind `sudo` and its end of options.
pub fn privileged_command(cmd: &[String], sudo: bool) -> (r: Vec<String>)
    ensures
        text::texts(r@) == elevated(text::texts(cmd@), sudo),
{
    let mut full: Vec<String> = Vec::new();
    if sudo {
        full.push(text::copy("sudo"));
        full.push(text::copy("--"));
    }
    let ghost lead = text::texts(full@);
    assert(lead == (if sudo {
        seq!["sudo"@, "--"@]
    } else {
        Seq::empty()
    }));
    let mut i: usize = 0;
    while i < cmd.len()
        invariant
            i <= cmd@.len(),
            text::texts(full@) == lead + text::texts(cmd@).take(i as int),
        decreases cmd@.len() - i,
    {
        let ghost before = full@;
        full.push(cmd[i].clone());
        assert(text::texts(full@) == text::texts(before).push(cmd@[i as int]@));
        assert(text::texts(cmd@).take(i + 1) == text::texts(cmd@).take(i as int).push(
            cmd@[i as int]@,
        ));
        i = i + 1;
    }
    assert(text::texts(cmd@).take(cmd@.len() as int) == text::texts(cmd@));
    assert(text::texts(full@) == elevated(text::texts(cmd@), sudo));
    full
}

/// What is shown of a failed command: its error output, or else its output.
pub open spec fn detail_of(stdout: Seq<char>, stderr: Seq<char>) -> Seq<char> {
    if text::trimmed(stderr).len() == 0 {
        text::trimmed(stdout)
    } else {
        text::trimmed(stderr)
    }
}

/// Chooses what is shown of a command: nothing where it succeeded or was
/// silent.
pub fn failure_detail(code: i32, stdout: &str, stderr: &str) -> (r: Option<String>)
    ensures
        match r {
            Some(s) => code != 0 && s@ == detail_of(stdout@, stderr@) && s@.len() > 0,
            None => code == 0 || detail_of(stdout@, stderr@).len() == 0,
        },
{
    if code == 0 {
        return None;
    }
    let err = text::trim(text::to_chars(stderr).as_slice());
    let detail = if err.len() == 0 {
        text::trim(text::to_chars(stdout).as_slice())
    } else {
        err
    };
    if detail.len() == 0 {
        None
    } else {
        Some(text::from_chars(detail.as_slice()))
    }
}

/// `s` with every single quote written so that a shell reads it back.
pub open spec fn quote_escaped(s: Seq<char>) -> Seq<char>
    decreases s.len(),
{
    if s.len() == 0 {
        s
    } else if s.last() == '\'' {
        quote_escaped(s.drop_last()) + seq!['\'', '\\', '\'', '\'']
    } else {
        quote_escaped(s.drop_last()).push(s.last())
    }
}

/// `s` as a single-quoted shell word.
pub open spec fn quoted(s: Seq<char>) -> Seq<char> {
    seq!['\''] + quote_escaped(s) + seq!['\'']
}

/// Writes a text as a single-quoted shell word.
pub fn shell_single_quote(value: &str) -> (r: String)
    ensures
        r@ == quoted(value@),
{
    let chars = text::to_chars(value);
    let mut out: Vec<char> = Vec::new();
    out.push('\'');
    let mut i: usize = 0;
    assert(chars@.take(0) == Seq::<char>::empty());
    assert(out@ == seq!['\''] + quote_escaped(chars@.take(0)));
    while i < chars.len()
        invariant
            i <= chars@.len(),
            out@ == seq!['\''] + quote_escaped(chars@.take(i as int)),
        decreases chars@.len() - i,
    {
        assert(chars@.take(i + 1).drop_last() == chars@.take(i as int));
        let ghost before = out@;
        let c = chars[i];
        if c == '\'' {
            out.push('\'');
            out.push('\\');
            out.push('\'');
            out.push('\'');
            assert(out@ == before + seq!['\'', '\\', '\'', '\'']);
        } else {
            out.push(c);
        }
        i = i + 1;
    }
    assert(chars@.take(chars@.len() as int) == chars@);
    out.push('\'');
    assert(out@ == quoted(value@));
    text::from_chars(out.as_slice())
}

/// What a shell is in the middle of when it reads a word.
#[derive(Clone, Copy, Debug, PartialEq, Eq, Structural)]
pub enum Quoting {
    Bare,
    Single,
    /// Behind a backslash outside quotes.
    Escape,
}

/// How a shell reads a word that is made of single-quoted parts and escaped
/// characters.
pub open spec fn shell_reads(s: Seq<char>) -> (Quoting, Seq<char>)
    decreases s.len(),
{
    if s.len() == 0 {
        (Quoting::Bare, Seq::empty())
    } else {
        let before = shell_reads(s.drop_last());
        let c = s.last();
        match before.0 {
            Quoting::Bare => if c == '\'' {
                (Quoting::Single, before.1)
            } else if c == '\\' {
                (Quoting::Escape, before.1)
            } else {
                (Quoting::Bare, before.1.push(c))
            },
            Quoting::Single => if c == '\'' {
                (Quoting::Bare, before.1)
            } else {
                (Quoting::Single, before.1.push(c))
            },
            Quoting::Escape => (Quoting::Bare, before.1.push(c)),
        }
    }
}

/// A shell reads a quoted text back as it was.
pub proof fn law_quoting_round_trip(s: Seq<char>)
    ensures
        shell_reads(quoted(s)) == (Quoting::Bare, s),
{
    lemma_reads_escaped(s);
    let open = seq!['\''] + quote_escaped(s);
    assert(quoted(s).drop_last() == open);
    assert(quoted(s).last() == '\'');
}

proof fn lemma_reads_escaped(s: Seq<char>)
    ensures
        shell_reads(seq!['\''] + quote_escaped(s)) == (Quoting::Single, s),
    decreases s.len(),
{
    let all = seq!['\''] + quote_escaped(s);
    if s.len() == 0 {
        assert(all.drop_last() == Seq::<char>::empty());
        assert(shell_reads(Seq::<char>::empty()) == (Quoting::Bare, Seq::<char>::empty()));
    } else {
        lemma_reads_escaped(s.drop_last());
        let head = seq!['\''] + quote_escaped(s.drop_last());
        assert(s == s.drop_last().push(s.last()));
        if s.last() == '\'' {
            let a = head.push('\'');
            let b = a.push('\\');
            let c = b.push('\'');
            let d = c.push('\'');
            assert(all == d);
            assert(a.drop_last() == head && b.drop_last() == a && c.drop_last() == b
                && d.drop_last() == c);
            assert(shell_reads(a) == (Quoting::Bare, s.drop_last()));
            assert(shell_reads(b) == (Quoting::Escape, s.drop_last()));
            assert(shell_reads(c) == (Quoting::Bare, s));
            assert(shell_reads(d) == (Quoting::Single, s));
        } else {
            assert(all.drop_last() == head);
        }
    }
}

/// Elevated rights put a command line behind `sudo` as it is; without them nothing is
/// changed.
pub proof fn law_elevation_keeps_the_command(cmd: Seq<Seq<char>>, sudo: bool)
    ensures
        elevated(cmd, sudo).len() == cmd.len() + (if sudo { 2int } else { 0int }),
        elevated(cmd, sudo).skip(elevated(cmd, sudo).len() - cmd.len()) == cmd,
        sudo ==> elevated(cmd, sudo)[0] == "sudo"@ && elevated(cmd, sudo)[1] == "--"@,
{
    assert(elevated(cmd, sudo).skip(elevated(cmd, sudo).len() - cmd.len()) == cmd);
}

/// The error output of a failed command goes before its output, which is shown only where
/// the other is blank.
pub proof fn law_errors_are_shown_first(stdout: Seq<char>, stderr: Seq<char>)
    ensures
        (exists|i: int| 0 <= i < stderr.len() && !text::is_white(#[trigger] stderr[i]))
            ==> detail_of(stdout, stderr) == text::trimmed(stderr),
        (forall|i: int| 0 <= i < stderr.len() ==> text::is_white(#[trigger] stderr[i]))
            ==> detail_of(stdout, stderr) == text::trimmed(stdout),
{
    let from = text::law_trimming_takes_white_space(stderr);
    let r = text::trimmed(stderr);
    if forall|i: int| 0 <= i < stderr.len() ==> text::is_white(#[trigger] stderr[i]) {
        if r.len() > 0 {
            assert(r[0] == stderr[from]);
        }
    }
}

} // verus!
