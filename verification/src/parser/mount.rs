use vstd::prelude::*;

use crate::text::{chars_of, is_control, is_control_char, is_white_space, is_white_space_char, string_of};

verus! {

/// A line of the custom list: bind-mount `source` onto `target`, or leave `source` out.
#[derive(Debug, Clone, PartialEq, Eq)]
pub enum Command {
    Mount { source: String, target: String },
    Ignore { source: String },
}

/// What a `Command` says, with its paths as character sequences.
pub enum CommandModel {
    Mount { source: Seq<char>, target: Seq<char> },
    Ignore { source: Seq<char> },
}

impl View for Command {
    type V = CommandModel;

    open spec fn view(&self) -> CommandModel {
        match self {
            Command::Mount { source, target } => CommandModel::Mount {
                source: source@,
                target: target@,
            },
            Command::Ignore { source } => CommandModel::Ignore { source: source@ },
        }
    }
}

/// The view of an optional command.
pub open spec fn option_command_view(c: Option<Command>) -> Option<CommandModel> {
    match c {
        Some(c) => Some(c@),
        None => None,
    }
}

/// The kinds of character run that the grammar reads.
#[derive(Clone, Copy)]
pub enum CharRun {
    /// Spaces and tabs, which separate the words of a command.
    Blank,
    /// Anything but a double quote: the inside of a quoted path.
    Quoted,
    /// Anything but white space and control characters: a bare path.
    Bare,
}

/// Whether `c` belongs to a run of the kind `k`.
pub open spec fn in_run(k: CharRun, c: char) -> bool {
    match k {
        CharRun::Blank => c == ' ' || c == '\t',
        CharRun::Quoted => c != '"',
        CharRun::Bare => !is_white_space(c) && !is_control(c),
    }
}

/// The end of the longest run of `k` characters in `t` that starts at `i`.
pub open spec fn run_end(t: Seq<char>, i: int, k: CharRun) -> int
    decreases t.len() - i,
{
    if 0 <= i < t.len() && in_run(k, t[i]) {
        run_end(t, i + 1, k)
    } else {
        i
    }
}

/// A run ends within `t`, holds only characters of its kind, and stops at the end of `t` or at a character of another kind.
pub proof fn lemma_run_end(t: Seq<char>, i: int, k: CharRun)
    requires
        0 <= i <= t.len(),
    ensures
        i <= run_end(t, i, k) <= t.len(),
        forall|j: int| i <= j < run_end(t, i, k) ==> in_run(k, #[trigger] t[j]),
        run_end(t, i, k) == t.len() || !in_run(k, t[run_end(t, i, k)]),
    decreases t.len() - i,
{
    if i < t.len() && in_run(k, t[i]) {
        lemma_run_end(t, i + 1, k);
    }
}

/// A path at position `i` of `t`: a double-quoted run of characters other than the
/// double quote, or else a run of characters that are neither white space nor
/// control characters.  Gives the path and the position after it.
pub open spec fn path_at(t: Seq<char>, i: int) -> Option<(Seq<char>, int)> {
    let q = run_end(t, i + 1, CharRun::Quoted);
    let b = run_end(t, i, CharRun::Bare);
    if 0 <= i < t.len() && t[i] == '"' && q > i + 1 && q < t.len() {
        Some((t.subrange(i + 1, q), q + 1))
    } else if b > i {
        Some((t.subrange(i, b), b))
    } else {
        None
    }
}

/// `t` starts with `bind`.
pub open spec fn starts_with_bind(t: Seq<char>) -> bool {
    t.len() >= 4 && t[0] == 'b' && t[1] == 'i' && t[2] == 'n' && t[3] == 'd'
}

/// `t` starts with `ignore`.
pub open spec fn starts_with_ignore(t: Seq<char>) -> bool {
    t.len() >= 6 && t[0] == 'i' && t[1] == 'g' && t[2] == 'n' && t[3] == 'o' && t[4] == 'r'
        && t[5] == 'e'
}

/// `bind`, blanks, a path, blanks, a path: the command and where it ends.
pub open spec fn mount_prefix(t: Seq<char>) -> Option<(CommandModel, int)> {
    let a = run_end(t, 4, CharRun::Blank);
    if starts_with_bind(t) && a > 4 {
        match path_at(t, a) {
            Some((source, e1)) => {
                let b = run_end(t, e1, CharRun::Blank);
                if b > e1 {
                    match path_at(t, b) {
                        Some((target, e2)) => Some((CommandModel::Mount { source, target }, e2)),
                        None => None,
                    }
                } else {
                    None
                }
            },
            None => None,
        }
    } else {
        None
    }
}

/// `ignore`, blanks, a path: the command and where it ends.
pub open spec fn ignore_prefix(t: Seq<char>) -> Option<(CommandModel, int)> {
    let a = run_end(t, 6, CharRun::Blank);
    if starts_with_ignore(t) && a > 6 {
        match path_at(t, a) {
            Some((source, e)) => Some((CommandModel::Ignore { source }, e)),
            None => None,
        }
    } else {
        None
    }
}

/// The command that the whole of `t` spells: a `bind` command if one starts `t`,
/// else an `ignore` command, provided that it takes up all of `t`.
pub open spec fn parse_command_model(t: Seq<char>) -> Option<CommandModel> {
    let first = match mount_prefix(t) {
        Some(r) => Some(r),
        None => ignore_prefix(t),
    };
    match first {
        Some((c, e)) => if e == t.len() {
            Some(c)
        } else {
            None
        },
        None => None,
    }
}

/// A run ends where its characters stop.
pub proof fn lemma_run_end_at(t: Seq<char>, i: int, j: int, k: CharRun)
    requires
        0 <= i <= j <= t.len(),
        forall|m: int| i <= m < j ==> in_run(k, #[trigger] t[m]),
        j == t.len() || !in_run(k, t[j]),
    ensures
        run_end(t, i, k) == j,
    decreases j - i,
{
    if i < j {
        lemma_run_end_at(t, i + 1, j, k);
    }
}

/// A run of one or more spaces and tabs.
pub open spec fn blank_run(b: Seq<char>) -> bool {
    &&& b.len() > 0
    &&& forall|i: int| 0 <= i < b.len() ==> #[trigger] b[i] == ' ' || b[i] == '\t'
}

/// A path written bare: one or more characters that are neither white space nor
/// control characters, the first not a double quote.
pub open spec fn bare_path(p: Seq<char>) -> bool {
    &&& p.len() > 0
    &&& p[0] != '"'
    &&& forall|i: int| 0 <= i < p.len() ==> !is_white_space(#[trigger] p[i]) && !is_control(p[i])
}

/// A path in double quotes: one or more characters other than the double quote.
pub open spec fn quotable_path(p: Seq<char>) -> bool {
    &&& p.len() > 0
    &&& forall|i: int| 0 <= i < p.len() ==> #[trigger] p[i] != '"'
}

proof fn lemma_bare_path_at(t: Seq<char>, i: int, p: Seq<char>)
    requires
        bare_path(p),
        0 <= i,
        i + p.len() == t.len(),
        t.subrange(i, t.len() as int) == p,
    ensures
        path_at(t, i) == Some((p, t.len() as int)),
{
    assert forall|m: int| i <= m < t.len() implies in_run(CharRun::Bare, #[trigger] t[m]) by {
        assert(t[m] == t.subrange(i, t.len() as int)[m - i]);
    }
    assert(t[i] == p[0]);
    lemma_run_end_at(t, i, t.len() as int, CharRun::Bare);
}

proof fn lemma_quoted_path_at(t: Seq<char>, i: int, p: Seq<char>)
    requires
        quotable_path(p),
        0 <= i,
        i + p.len() + 2 <= t.len(),
        t.subrange(i, i + p.len() + 2) == seq!['"'] + p + seq!['"'],
    ensures
        path_at(t, i) == Some((p, i + p.len() + 2)),
{
    let w = seq!['"'] + p + seq!['"'];
    assert forall|m: int| 0 <= m < w.len() implies t[i + m] == #[trigger] w[m] by {
        assert(t.subrange(i, i + p.len() + 2)[m] == t[i + m]);
    }
    assert(t[i] == w[0]);
    assert forall|m: int| i + 1 <= m < i + 1 + p.len() implies in_run(CharRun::Quoted, #[trigger] t[m]) by {
        assert(t[m] == w[m - i]);
    }
    assert(t[i + 1 + p.len()] == w[p.len() + 1int]);
    lemma_run_end_at(t, i + 1, i + 1 + p.len(), CharRun::Quoted);
    assert(t.subrange(i + 1, i + 1 + p.len()) =~= p) by {
        assert forall|m: int| 0 <= m < p.len() implies t.subrange(i + 1, i + 1 + p.len())[m] == p[m] by {
            assert(t[i + 1 + m] == w[m + 1]);
        }
    }
}

proof fn lemma_blank_run_at(t: Seq<char>, i: int, b: Seq<char>)
    requires
        blank_run(b),
        0 <= i,
        i + b.len() < t.len(),
        t.subrange(i, i + b.len()) == b,
        t[i + b.len()] != ' ' && t[i + b.len()] != '\t',
    ensures
        run_end(t, i, CharRun::Blank) == i + b.len(),
{
    assert forall|m: int| i <= m < i + b.len() implies in_run(CharRun::Blank, #[trigger] t[m]) by {
        assert(t[m] == t.subrange(i, i + b.len())[m - i]);
    }
    lemma_run_end_at(t, i, i + b.len(), CharRun::Blank);
}

/// `ignore`, a run of spaces and tabs of any length, and a bare path make an `ignore`
/// command of that path.
pub proof fn law_ignore_line_parses(b: Seq<char>, p: Seq<char>)
    requires
        blank_run(b),
        bare_path(p),
    ensures
        parse_command_model(seq!['i', 'g', 'n', 'o', 'r', 'e'] + b + p) == Some(
            CommandModel::Ignore { source: p },
        ),
{
    let t = seq!['i', 'g', 'n', 'o', 'r', 'e'] + b + p;
    let a: int = 6 + b.len() as int;
    assert(t.subrange(6, a) =~= b);
    assert(t[a] == p[0]);
    assert(!is_white_space(p[0]));
    lemma_blank_run_at(t, 6, b);
    assert(t.subrange(a, t.len() as int) =~= p);
    lemma_bare_path_at(t, a, p);
    assert(mount_prefix(t) is None);
}

/// `ignore`, a run of spaces and tabs of any length, and a path in double quotes make
/// an `ignore` command of the path inside the quotes.
pub proof fn law_ignore_quoted_line_parses(b: Seq<char>, p: Seq<char>)
    requires
        blank_run(b),
        quotable_path(p),
    ensures
        parse_command_model(seq!['i', 'g', 'n', 'o', 'r', 'e'] + b + (seq!['"'] + p + seq!['"']))
            == Some(CommandModel::Ignore { source: p }),
{
    let w = seq!['"'] + p + seq!['"'];
    let t = seq!['i', 'g', 'n', 'o', 'r', 'e'] + b + w;
    let a: int = 6 + b.len() as int;
    assert(t.subrange(6, a) =~= b);
    assert(t[a] == '"');
    lemma_blank_run_at(t, 6, b);
    assert(t.subrange(a, a + p.len() + 2) =~= w);
    lemma_quoted_path_at(t, a, p);
    assert(mount_prefix(t) is None);
}

/// `bind`, a run of spaces and tabs, a bare path, another run and another bare path
/// make a `bind` command from the first path onto the second.
pub proof fn law_bind_line_parses(b1: Seq<char>, s: Seq<char>, b2: Seq<char>, t: Seq<char>)
    requires
        blank_run(b1),
        bare_path(s),
        blank_run(b2),
        bare_path(t),
    ensures
        parse_command_model(seq!['b', 'i', 'n', 'd'] + b1 + s + b2 + t) == Some(
            CommandModel::Mount { source: s, target: t },
        ),
{
    let l = seq!['b', 'i', 'n', 'd'] + b1 + s + b2 + t;
    let a: int = 4 + b1.len() as int;
    let e1: int = a + s.len();
    let c: int = e1 + b2.len();
    assert(l.subrange(4, a) =~= b1);
    assert(l[a] == s[0]);
    assert(!is_white_space(s[0]));
    lemma_blank_run_at(l, 4, b1);
    // the source is a bare run that the first blank of `b2` ends
    assert forall|m: int| a <= m < e1 implies in_run(CharRun::Bare, #[trigger] l[m]) by {
        assert(l[m] == s[m - a]);
    }
    assert(l[e1] == b2[0]);
    assert(is_white_space(b2[0]));
    lemma_run_end_at(l, a, e1, CharRun::Bare);
    assert(l.subrange(a, e1) =~= s);
    assert(path_at(l, a) == Some((s, e1)));
    assert(l.subrange(e1, c) =~= b2);
    assert(l[c] == t[0]);
    assert(!is_white_space(t[0]));
    lemma_blank_run_at(l, e1, b2);
    assert(l.subrange(c, l.len() as int) =~= t);
    lemma_bare_path_at(l, c, t);
}

/// `bind`, a run of spaces and tabs, a path in double quotes, another run and another
/// path in double quotes make a `bind` command from the first quoted path onto the
/// second.
pub proof fn law_bind_quoted_line_parses(b1: Seq<char>, s: Seq<char>, b2: Seq<char>, t: Seq<char>)
    requires
        blank_run(b1),
        quotable_path(s),
        blank_run(b2),
        quotable_path(t),
    ensures
        parse_command_model(
            seq!['b', 'i', 'n', 'd'] + b1 + (seq!['"'] + s + seq!['"']) + b2 + (seq!['"'] + t
                + seq!['"']),
        ) == Some(CommandModel::Mount { source: s, target: t }),
{
    let ws = seq!['"'] + s + seq!['"'];
    let wt = seq!['"'] + t + seq!['"'];
    let l = seq!['b', 'i', 'n', 'd'] + b1 + ws + b2 + wt;
    let a: int = 4 + b1.len() as int;
    let e1: int = a + ws.len();
    let c: int = e1 + b2.len();
    assert(l.subrange(4, a) =~= b1);
    assert(l[a] == '"');
    lemma_blank_run_at(l, 4, b1);
    assert(l.subrange(a, a + s.len() + 2) =~= ws);
    lemma_quoted_path_at(l, a, s);
    assert(l.subrange(e1, c) =~= b2);
    assert(l[c] == '"');
    lemma_blank_run_at(l, e1, b2);
    assert(l.subrange(c, c + t.len() + 2) =~= wt);
    lemma_quoted_path_at(l, c, t);
}

fn in_run_exec(k: CharRun, c: char) -> (r: bool)
    ensures
        r == in_run(k, c),
{
    match k {
        CharRun::Blank => c == ' ' || c == '\t',
        CharRun::Quoted => c != '"',
        CharRun::Bare => !is_white_space_char(c) && !is_control_char(c),
    }
}

fn run_end_exec(t: &Vec<char>, i: usize, k: CharRun) -> (e: usize)
    requires
        i <= t.len(),
    ensures
        e == run_end(t@, i as int, k),
        i <= e <= t.len(),
{
    let mut j = i;
    while j < t.len() && in_run_exec(k, t[j])
        invariant
            i <= j <= t.len(),
            run_end(t@, i as int, k) == run_end(t@, j as int, k),
        decreases t.len() - j,
    {
        j = j + 1;
    }
    j
}

fn path_at_exec(t: &Vec<char>, i: usize) -> (r: Option<(String, usize)>)
    requires
        i <= t.len(),
    ensures
        match r {
            Some((s, e)) => path_at(t@, i as int) == Some((s@, e as int)) && e <= t.len(),
            None => path_at(t@, i as int) is None,
        },
{
    if i < t.len() && t[i] == '"' {
        let q = run_end_exec(t, i + 1, CharRun::Quoted);
        if q > i + 1 && q < t.len() {
            return Some((string_of(t, i + 1, q), q + 1));
        }
    }
    let b = run_end_exec(t, i, CharRun::Bare);
    if b > i {
        Some((string_of(t, i, b), b))
    } else {
        None
    }
}

fn mount_prefix_exec(t: &Vec<char>) -> (r: Option<(Command, usize)>)
    ensures
        match r {
            Some((c, e)) => mount_prefix(t@) == Some((c@, e as int)),
            None => mount_prefix(t@) is None,
        },
{
    if !(t.len() >= 4 && t[0] == 'b' && t[1] == 'i' && t[2] == 'n' && t[3] == 'd') {
        return None;
    }
    let a = run_end_exec(t, 4, CharRun::Blank);
    if a <= 4 {
        return None;
    }
    match path_at_exec(t, a) {
        Some((source, e1)) => {
            let b = run_end_exec(t, e1, CharRun::Blank);
            if b <= e1 {
                return None;
            }
            match path_at_exec(t, b) {
                Some((target, e2)) => Some((Command::Mount { source, target }, e2)),
                None => None,
            }
        },
        None => None,
    }
}

fn ignore_prefix_exec(t: &Vec<char>) -> (r: Option<(Command, usize)>)
    ensures
        match r {
            Some((c, e)) => ignore_prefix(t@) == Some((c@, e as int)),
            None => ignore_prefix(t@) is None,
        },
{
    if !(t.len() >= 6 && t[0] == 'i' && t[1] == 'g' && t[2] == 'n' && t[3] == 'o' && t[4] == 'r'
        && t[5] == 'e') {
        return None;
    }
    let a = run_end_exec(t, 6, CharRun::Blank);
    if a <= 6 {
        return None;
    }
    match path_at_exec(t, a) {
        Some((source, e)) => Some((Command::Ignore { source }, e)),
        None => None,
    }
}

/// The command that the characters `t` spell, if they spell one.
pub fn parse_command_chars(t: &Vec<char>) -> (r: Option<Command>)
    ensures
        option_command_view(r) == parse_command_model(t@),
{
    let first = match mount_prefix_exec(t) {
        Some(r) => Some(r),
        None => ignore_prefix_exec(t),
    };
    match first {
        Some((c, e)) => if e == t.len() {
            Some(c)
        } else {
            None
        },
        None => None,
    }
}

/// Parses one line of the custom list: `bind <source> <target>` or `ignore <source>`,
/// the words separated by spaces or tabs, each path either in double quotes or bare.
/// Gives `None` where the whole line is no such command.
pub fn parse_command(input: &str) -> (r: Option<Command>)
    ensures
        option_command_view(r) == parse_command_model(input@),
{
    let t = chars_of(input);
    parse_command_chars(&t)
}

} // verus!
