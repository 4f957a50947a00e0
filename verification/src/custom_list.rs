use vstd::prelude::*;

use crate::config::{
    bind_line, custom_list_lines, custom_list_text, format_path_model, ignore_line,
    ignored_sources, joined_lines, mounted_pairs,
};
use crate::parser::mount::{
    in_run, ignore_prefix, lemma_run_end_at, mount_prefix, path_at, CharRun, CommandModel,
};
use crate::parser::{commands_of_lines, custom_list_commands, line_command};
use crate::text::{has_white_space, is_control, is_white_space, split_newlines, text_lines, trim};

verus! {

/// A path that the custom list can hold and give back: not empty, without a double
/// quote or a newline, and, where it holds no white space (so that it is written
/// without quotes), without control characters.
pub open spec fn listable_path(p: Seq<char>) -> bool {
    &&& p.len() > 0
    &&& forall|i: int| 0 <= i < p.len() ==> #[trigger] p[i] != '"' && p[i] != '\n'
    &&& !has_white_space(p) ==> forall|i: int| 0 <= i < p.len() ==> !is_control(#[trigger] p[i])
}

/// The commands that a custom list of `ignores` and `mounts` holds: an `ignore`
/// command per ignored path, then a `bind` command per mount.
pub open spec fn listed_commands(
    ignores: Seq<Seq<char>>,
    mounts: Seq<(Seq<char>, Seq<char>)>,
) -> Seq<CommandModel> {
    ignores.map_values(|p: Seq<char>| CommandModel::Ignore { source: p }) + mounts.map_values(
        |m: (Seq<char>, Seq<char>)| CommandModel::Mount { source: m.0, target: m.1 },
    )
}

/// Splitting `s + w` at newlines, where `w` holds none, extends the last piece of `s`.
proof fn lemma_split_append(s: Seq<char>, w: Seq<char>)
    requires
        forall|i: int| 0 <= i < w.len() ==> #[trigger] w[i] != '\n',
    ensures
        split_newlines(s + w) == split_newlines(s).update(
            split_newlines(s).len() - 1,
            split_newlines(s).last() + w,
        ),
    decreases w.len(),
{
    crate::text::lemma_split_newlines_nonempty(s);
    if w.len() == 0 {
        assert(s + w =~= s);
        assert(split_newlines(s).last() + w =~= split_newlines(s).last());
        assert(split_newlines(s).update(split_newlines(s).len() - 1, split_newlines(s).last())
            =~= split_newlines(s));
    } else {
        let w0 = w.drop_last();
        lemma_split_append(s, w0);
        assert((s + w).drop_last() =~= s + w0);
        assert((s + w).last() == w.last());
        assert(w0.push(w.last()) =~= w);
        let p = split_newlines(s);
        assert(split_newlines(s + w) =~= p.update(p.len() - 1, p.last() + w));
    }
}

/// The lines of joined lines are those lines, where none holds a newline.
proof fn lemma_split_joined(lines: Seq<Seq<char>>)
    requires
        forall|k: int, i: int|
            0 <= k < lines.len() && 0 <= i < lines[k].len() ==> #[trigger] lines[k][i] != '\n',
    ensures
        split_newlines(joined_lines(lines)) == lines.push(Seq::empty()),
    decreases lines.len(),
{
    if lines.len() == 0 {
        assert(split_newlines(Seq::empty()) =~= seq![Seq::<char>::empty()]);
        assert(lines.push(Seq::empty()) =~= seq![Seq::<char>::empty()]);
    } else {
        let prev = lines.drop_last();
        lemma_split_joined(prev);
        let x = joined_lines(prev);
        let l = lines.last();
        lemma_split_append(x, l);
        let y = x + l + seq!['\n'];
        assert(joined_lines(lines) == y);
        assert(y.drop_last() =~= x + l);
        assert(split_newlines(x + l) =~= prev.push(l));
        assert(prev.push(l) =~= lines);
    }
}

proof fn lemma_text_lines_joined(lines: Seq<Seq<char>>)
    requires
        forall|k: int, i: int|
            0 <= k < lines.len() && 0 <= i < lines[k].len() ==> #[trigger] lines[k][i] != '\n',
    ensures
        text_lines(joined_lines(lines)) == lines,
{
    lemma_split_joined(lines);
    assert(lines.push(Seq::empty()).drop_last() =~= lines);
}

/// The commands of lines that each hold one are those commands, in order.
proof fn lemma_commands_of_lines(lines: Seq<Seq<char>>, cs: Seq<CommandModel>)
    requires
        lines.len() == cs.len(),
        forall|k: int| 0 <= k < lines.len() ==> line_command(#[trigger] lines[k]) == Some(cs[k]),
    ensures
        commands_of_lines(lines) == cs,
    decreases lines.len(),
{
    if lines.len() > 0 {
        lemma_commands_of_lines(lines.drop_last(), cs.drop_last());
        assert(line_command(lines[lines.len() - 1]) == Some(cs[cs.len() - 1]));
        assert(cs.drop_last().push(cs.last()) =~= cs);
    } else {
        assert(cs =~= Seq::<CommandModel>::empty());
    }
}

/// A formatted listable path at position `i`, followed by a blank or the end, reads
/// back as that path.
proof fn lemma_path_at_formatted(l: Seq<char>, i: int, p: Seq<char>)
    requires
        listable_path(p),
        0 <= i,
        i + format_path_model(p).len() <= l.len(),
        l.subrange(i, i + format_path_model(p).len()) == format_path_model(p),
        i + format_path_model(p).len() == l.len() || l[i + format_path_model(p).len()] == ' ',
    ensures
        path_at(l, i) == Some((p, i + format_path_model(p).len())),
{
    let f = format_path_model(p);
    let n = p.len();
    assert forall|m: int| 0 <= m < f.len() implies l[i + m] == #[trigger] f[m] by {
        assert(l.subrange(i, i + f.len())[m] == l[i + m]);
    }
    if has_white_space(p) {
        assert(f[0] == '"');
        assert(l[i] == '"');
        assert forall|m: int| i + 1 <= m < i + 1 + n implies in_run(CharRun::Quoted, #[trigger] l[m]) by {
            assert(l[m] == f[m - i]);
            assert(f[m - i] == p[m - i - 1]);
        }
        assert(l[i + 1 + n] == f[n + 1 as int]);
        lemma_run_end_at(l, i + 1, i + 1 + n, CharRun::Quoted);
        assert(l.subrange(i + 1, i + 1 + n) =~= p) by {
            assert forall|m: int| 0 <= m < n implies l.subrange(i + 1, i + 1 + n)[m] == p[m] by {
                assert(l[i + 1 + m] == f[m + 1]);
            }
        }
    } else {
        assert(f == p);
        assert(l[i] == p[0]);
        assert(p[0] != '"');
        assert forall|m: int| i <= m < i + n implies in_run(CharRun::Bare, #[trigger] l[m]) by {
            assert(l[m] == p[m - i]);
            if is_white_space(p[m - i]) {
                assert(has_white_space(p));
            }
        }
        if i + n < l.len() {
            assert(l[i + n] == ' ');
            assert(is_white_space(' '));
        }
        lemma_run_end_at(l, i, i + n, CharRun::Bare);
        assert(l.subrange(i, i + n) =~= p);
    }
}

proof fn lemma_format_shape(p: Seq<char>)
    requires
        listable_path(p),
    ensures
        format_path_model(p).len() > 0,
        !is_white_space(format_path_model(p)[0]),
        format_path_model(p)[0] != '\t',
        format_path_model(p)[0] != ' ',
        !is_white_space(format_path_model(p).last()),
        forall|i: int|
            0 <= i < format_path_model(p).len() ==> #[trigger] format_path_model(p)[i] != '\n',
{
    let f = format_path_model(p);
    if has_white_space(p) {
        assert(f[0] == '"');
        assert(f.last() == '"');
        assert forall|i: int| 0 <= i < f.len() implies #[trigger] f[i] != '\n' by {
            if 1 <= i < f.len() - 1 {
                assert(f[i] == p[i - 1]);
            }
        }
    } else {
        assert(f == p);
        if is_white_space(p[0]) {
            assert(has_white_space(p));
        }
        if is_white_space(p.last()) {
            assert(has_white_space(p));
        }
    }
}

/// A line that neither starts nor ends with white space is its own trim.
proof fn lemma_trim_unchanged(l: Seq<char>)
    requires
        l.len() > 0,
        !is_white_space(l[0]),
        !is_white_space(l.last()),
    ensures
        trim(l) == l,
{
}

/// The `ignore` line of a listable path reads back as that command.
pub proof fn lemma_ignore_line_reads_back(p: Seq<char>)
    requires
        listable_path(p),
    ensures
        line_command(ignore_line(p)) == Some(CommandModel::Ignore { source: p }),
{
    let f = format_path_model(p);
    let l = ignore_line(p);
    lemma_format_shape(p);
    assert(l.len() == 7 + f.len());
    assert(l.last() == f.last());
    lemma_trim_unchanged(l);
    assert(l[6] == ' ');
    assert(l[7] == f[0]);
    lemma_run_end_at(l, 6, 7, CharRun::Blank);
    assert(l.subrange(7, 7 + f.len() as int) =~= f);
    lemma_path_at_formatted(l, 7, p);
    assert(ignore_prefix(l) == Some((CommandModel::Ignore { source: p }, l.len() as int)));
    assert(mount_prefix(l) is None);
}

/// The `bind` line of two listable paths reads back as that command.
pub proof fn lemma_bind_line_reads_back(s: Seq<char>, t: Seq<char>)
    requires
        listable_path(s),
        listable_path(t),
    ensures
        line_command(bind_line(s, t)) == Some(CommandModel::Mount { source: s, target: t }),
{
    let fs = format_path_model(s);
    let ft = format_path_model(t);
    let l = bind_line(s, t);
    lemma_format_shape(s);
    lemma_format_shape(t);
    let e1: int = 5 + fs.len() as int;
    assert(l.len() == e1 + 1 + ft.len());
    assert(l.last() == ft.last());
    lemma_trim_unchanged(l);
    assert(l[4] == ' ');
    assert(l[5] == fs[0]);
    lemma_run_end_at(l, 4, 5, CharRun::Blank);
    assert(l.subrange(5, e1) =~= fs);
    assert(l[e1] == ' ');
    lemma_path_at_formatted(l, 5, s);
    assert(l[e1 + 1] == ft[0]);
    lemma_run_end_at(l, e1, e1 + 1, CharRun::Blank);
    assert(l.subrange(e1 + 1, e1 + 1 + ft.len() as int) =~= ft);
    lemma_path_at_formatted(l, e1 + 1, t);
    assert(mount_prefix(l) == Some(
        (CommandModel::Mount { source: s, target: t }, l.len() as int),
    ));
}

proof fn lemma_ignored_sources_append_mounts(x: Seq<CommandModel>, m: Seq<CommandModel>)
    requires
        forall|k: int| 0 <= k < m.len() ==> #[trigger] m[k] is Mount,
    ensures
        ignored_sources(x + m) == ignored_sources(x),
    decreases m.len(),
{
    if m.len() == 0 {
        assert(x + m =~= x);
    } else {
        lemma_ignored_sources_append_mounts(x, m.drop_last());
        assert((x + m).drop_last() =~= x + m.drop_last());
        assert((x + m).last() == m[m.len() - 1]);
    }
}

proof fn lemma_mounted_pairs_append(x: Seq<CommandModel>, m: Seq<(Seq<char>, Seq<char>)>)
    ensures
        mounted_pairs(
            x + m.map_values(
                |p: (Seq<char>, Seq<char>)| CommandModel::Mount { source: p.0, target: p.1 },
            ),
        ) == mounted_pairs(x) + m,
    decreases m.len(),
{
    let f = |p: (Seq<char>, Seq<char>)| CommandModel::Mount { source: p.0, target: p.1 };
    if m.len() == 0 {
        assert(x + m.map_values(f) =~= x);
        assert(mounted_pairs(x) + m =~= mounted_pairs(x));
    } else {
        let m0 = m.drop_last();
        lemma_mounted_pairs_append(x, m0);
        assert((x + m.map_values(f)).drop_last() =~= x + m0.map_values(f));
        assert((x + m.map_values(f)).last() == f(m.last()));
        assert(mounted_pairs(x) + m0 + seq![m.last()] =~= mounted_pairs(x) + m);
        assert((mounted_pairs(x) + m0).push(m.last()) =~= mounted_pairs(x) + m);
    }
}

proof fn lemma_ignores_only(ignores: Seq<Seq<char>>)
    ensures
        ignored_sources(ignores.map_values(|p: Seq<char>| CommandModel::Ignore { source: p }))
            == ignores,
        mounted_pairs(ignores.map_values(|p: Seq<char>| CommandModel::Ignore { source: p }))
            == Seq::<(Seq<char>, Seq<char>)>::empty(),
    decreases ignores.len(),
{
    let f = |p: Seq<char>| CommandModel::Ignore { source: p };
    if ignores.len() == 0 {
        assert(ignores.map_values(f) =~= Seq::<CommandModel>::empty());
        assert(ignores =~= Seq::<Seq<char>>::empty());
    } else {
        let i0 = ignores.drop_last();
        lemma_ignores_only(i0);
        assert(ignores.map_values(f).drop_last() =~= i0.map_values(f));
        assert(i0.push(ignores.last()) =~= ignores);
    }
}

proof fn lemma_lines_read_back(ignores: Seq<Seq<char>>, mounts: Seq<(Seq<char>, Seq<char>)>)
    requires
        forall|k: int| 0 <= k < ignores.len() ==> listable_path(#[trigger] ignores[k]),
        forall|k: int|
            0 <= k < mounts.len() ==> listable_path(#[trigger] mounts[k].0) && listable_path(
                mounts[k].1,
            ),
    ensures
        custom_list_lines(ignores, mounts).len() == listed_commands(ignores, mounts).len(),
        forall|k: int|
            0 <= k < custom_list_lines(ignores, mounts).len() ==> line_command(
                #[trigger] custom_list_lines(ignores, mounts)[k],
            ) == Some(listed_commands(ignores, mounts)[k]),
{
    let lines = custom_list_lines(ignores, mounts);
    let cs = listed_commands(ignores, mounts);
    let n = ignores.len();
    assert forall|k: int| 0 <= k < lines.len() implies line_command(#[trigger] lines[k]) == Some(
        cs[k],
    ) by {
        if k < n {
            assert(lines[k] == ignore_line(ignores[k]));
            lemma_ignore_line_reads_back(ignores[k]);
        } else {
            assert(lines[k] == bind_line(mounts[k - n].0, mounts[k - n].1));
            lemma_bind_line_reads_back(mounts[k - n].0, mounts[k - n].1);
        }
    }
}

proof fn lemma_lines_have_no_newline(ignores: Seq<Seq<char>>, mounts: Seq<(Seq<char>, Seq<char>)>)
    requires
        forall|k: int| 0 <= k < ignores.len() ==> listable_path(#[trigger] ignores[k]),
        forall|k: int|
            0 <= k < mounts.len() ==> listable_path(#[trigger] mounts[k].0) && listable_path(
                mounts[k].1,
            ),
    ensures
        forall|k: int, i: int|
            0 <= k < custom_list_lines(ignores, mounts).len() && 0 <= i < custom_list_lines(
                ignores,
                mounts,
            )[k].len() ==> #[trigger] custom_list_lines(ignores, mounts)[k][i] != '\n',
{
    let lines = custom_list_lines(ignores, mounts);
    let n = ignores.len();
    assert forall|k: int, i: int|
        0 <= k < lines.len() && 0 <= i < lines[k].len() implies #[trigger] lines[k][i] != '\n' by {
        if k < n {
            let p = ignores[k];
            lemma_format_shape(p);
            assert(lines[k] == ignore_line(p));
            if i >= 7 {
                assert(lines[k][i] == format_path_model(p)[i - 7]);
            }
        } else {
            let s = mounts[k - n].0;
            let t = mounts[k - n].1;
            lemma_format_shape(s);
            lemma_format_shape(t);
            let fs = format_path_model(s);
            assert(lines[k] == bind_line(s, t));
            if 5 <= i < 5 + fs.len() {
                assert(lines[k][i] == fs[i - 5]);
            } else if i > 5 + fs.len() {
                assert(lines[k][i] == format_path_model(t)[i - 6 - fs.len()]);
            }
        }
    }
}

/// The custom list that is written for listable paths is read back as the same
/// commands: an `ignore` command per ignored path, then a `bind` command per mount.
pub proof fn law_custom_list_reads_back(
    ignores: Seq<Seq<char>>,
    mounts: Seq<(Seq<char>, Seq<char>)>,
)
    requires
        forall|k: int| 0 <= k < ignores.len() ==> listable_path(#[trigger] ignores[k]),
        forall|k: int|
            0 <= k < mounts.len() ==> listable_path(#[trigger] mounts[k].0) && listable_path(
                mounts[k].1,
            ),
    ensures
        custom_list_commands(custom_list_text(ignores, mounts)) == listed_commands(
            ignores,
            mounts,
        ),
{
    let lines = custom_list_lines(ignores, mounts);
    lemma_lines_read_back(ignores, mounts);
    lemma_lines_have_no_newline(ignores, mounts);
    lemma_text_lines_joined(lines);
    lemma_commands_of_lines(lines, listed_commands(ignores, mounts));
}

/// The ignore list and the mounts that are written for listable paths are read back
/// unchanged.
pub proof fn law_custom_lists_round_trip(
    ignores: Seq<Seq<char>>,
    mounts: Seq<(Seq<char>, Seq<char>)>,
)
    requires
        forall|k: int| 0 <= k < ignores.len() ==> listable_path(#[trigger] ignores[k]),
        forall|k: int|
            0 <= k < mounts.len() ==> listable_path(#[trigger] mounts[k].0) && listable_path(
                mounts[k].1,
            ),
    ensures
        ignored_sources(custom_list_commands(custom_list_text(ignores, mounts))) == ignores,
        mounted_pairs(custom_list_commands(custom_list_text(ignores, mounts))) == mounts,
{
    law_custom_list_reads_back(ignores, mounts);
    let i_cs = ignores.map_values(|p: Seq<char>| CommandModel::Ignore { source: p });
    let m_cs = mounts.map_values(
        |m: (Seq<char>, Seq<char>)| CommandModel::Mount { source: m.0, target: m.1 },
    );
    lemma_ignores_only(ignores);
    lemma_ignored_sources_append_mounts(i_cs, m_cs);
    lemma_mounted_pairs_append(i_cs, mounts);
    assert(Seq::<(Seq<char>, Seq<char>)>::empty() + mounts =~= mounts);
}

} // verus!
