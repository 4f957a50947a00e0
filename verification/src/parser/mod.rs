pub mod mount;

use vstd::prelude::*;

use crate::parser::mount::{parse_command_chars, parse_command_model, Command, CommandModel};
use crate::text::{chars_between, chars_of, lemma_split_newlines_nonempty, split_newlines, text_lines, trim, trim_chars};

verus! {

/// The command that one line of the custom list holds: none for a comment (a line
/// that starts with `#` once trimmed), else the command that the trimmed line spells.
pub open spec fn line_command(line: Seq<char>) -> Option<CommandModel> {
    let t = trim(line);
    if t.len() > 0 && t[0] == '#' {
        None
    } else {
        parse_command_model(t)
    }
}

/// The commands of `lines`, in order, skipping the lines that hold none.
pub open spec fn commands_of_lines(lines: Seq<Seq<char>>) -> Seq<CommandModel>
    decreases lines.len(),
{
    if lines.len() == 0 {
        Seq::empty()
    } else {
        let prev = commands_of_lines(lines.drop_last());
        match line_command(lines.last()) {
            Some(c) => prev.push(c),
            None => prev,
        }
    }
}

/// The commands of a custom list whose text is `text`.
pub open spec fn custom_list_commands(text: Seq<char>) -> Seq<CommandModel> {
    commands_of_lines(text_lines(text))
}

/// The views of a sequence of commands.
pub open spec fn commands_view(cs: Seq<Command>) -> Seq<CommandModel> {
    cs.map_values(|c: Command| c@)
}

/// The command of the line `t[from..to]`, if it holds one.
fn line_command_exec(t: &Vec<char>, from: usize, to: usize) -> (r: Option<Command>)
    requires
        from <= to <= t.len(),
    ensures
        match r {
            Some(c) => line_command(t@.subrange(from as int, to as int)) == Some(c@),
            None => line_command(t@.subrange(from as int, to as int)) is None,
        },
{
    let line = chars_between(t, from, to);
    let trimmed = trim_chars(&line);
    if trimmed.len() > 0 && trimmed[0] == '#' {
        None
    } else {
        parse_command_chars(&trimmed)
    }
}

/// The commands that the text of a custom list holds: one per line, each line
/// trimmed, lines that start with `#` and lines that spell no command left out.
pub fn parser_custom(content: &str) -> (r: Vec<Command>)
    ensures
        commands_view(r@) == custom_list_commands(content@),
{
    let t = chars_of(content);
    let n = t.len();
    let mut out: Vec<Command> = Vec::new();
    let mut start: usize = 0;
    let mut i: usize = 0;
    proof {
        assert(t@.take(0) =~= Seq::<char>::empty());
        assert(split_newlines(t@.take(0)).drop_last() =~= Seq::<Seq<char>>::empty());
        assert(commands_view(out@) =~= Seq::<CommandModel>::empty());
    }
    while i < n
        invariant
            n == t.len(),
            start <= i <= n,
            split_newlines(t@.take(i as int)).last() == t@.subrange(start as int, i as int),
            commands_view(out@) == commands_of_lines(split_newlines(t@.take(i as int)).drop_last()),
        decreases n - i,
    {
        let ghost prev = split_newlines(t@.take(i as int));
        proof {
            lemma_split_newlines_nonempty(t@.take(i as int));
            assert(t@.take(i + 1).drop_last() =~= t@.take(i as int));
            assert(t@.take(i + 1).last() == t@[i as int]);
        }
        if t[i] == '\n' {
            let c = line_command_exec(&t, start, i);
            let ghost old_out = out@;
            proof {
                let cur = split_newlines(t@.take(i + 1));
                assert(cur == prev.push(Seq::empty()));
                assert(cur.drop_last() =~= prev);
                assert(prev =~= prev.drop_last().push(prev.last()));
            }
            match c {
                Some(c) => {
                    out.push(c);
                    assert(commands_view(out@) =~= commands_view(old_out).push(c@));
                },
                None => {},
            }
            start = i + 1;
            i = i + 1;
            assert(split_newlines(t@.take(i as int)).last() =~= t@.subrange(start as int, i as int));
        } else {
            proof {
                let cur = split_newlines(t@.take(i + 1));
                assert(cur == prev.update(prev.len() - 1, prev.last().push(t@[i as int])));
                assert(cur.drop_last() =~= prev.drop_last());
                assert(cur.last() =~= t@.subrange(start as int, i + 1));
            }
            i = i + 1;
        }
    }
    proof {
        assert(t@.take(n as int) =~= t@);
        lemma_split_newlines_nonempty(t@);
    }
    if start < n {
        let c = line_command_exec(&t, start, n);
        let ghost old_out = out@;
        proof {
            let p = split_newlines(t@);
            assert(p =~= p.drop_last().push(p.last()));
        }
        match c {
            Some(c) => {
                out.push(c);
                assert(commands_view(out@) =~= commands_view(old_out).push(c@));
            },
            None => {},
        }
    }
    out
}

} // verus!
