use vstd::prelude::*;
use vstd::utf8::{decode_utf8, valid_utf8};

verus! {

/// The Unicode `White_Space` property, which `char::is_whitespace` tests.
pub open spec fn is_white_space(c: char) -> bool {
    let v = c as u32;
    ||| 0x09 <= v <= 0x0D
    ||| v == 0x20
    ||| v == 0x85
    ||| v == 0xA0
    ||| v == 0x1680
    ||| 0x2000 <= v <= 0x200A
    ||| v == 0x2028
    ||| v == 0x2029
    ||| v == 0x202F
    ||| v == 0x205F
    ||| v == 0x3000
}

/// The Unicode general category `Cc`, which `char::is_control` tests.
pub open spec fn is_control(c: char) -> bool {
    let v = c as u32;
    v <= 0x1F || (0x7F <= v <= 0x9F)
}

/// Whether `c` is white space, decided as `char::is_whitespace` decides it.
pub fn is_white_space_char(c: char) -> (r: bool)
    ensures
        r == is_white_space(c),
{
    let v = c as u32;
    (0x09 <= v && v <= 0x0D) || v == 0x20 || v == 0x85 || v == 0xA0 || v == 0x1680 || (0x2000
        <= v && v <= 0x200A) || v == 0x2028 || v == 0x2029 || v == 0x202F || v == 0x205F || v
        == 0x3000
}

/// Whether `c` is a control character, decided as `char::is_control` decides it.
pub fn is_control_char(c: char) -> (r: bool)
    ensures
        r == is_control(c),
{
    let v = c as u32;
    v <= 0x1F || (0x7F <= v && v <= 0x9F)
}

/// Whether `s` holds a white-space character.
pub open spec fn has_white_space(s: Seq<char>) -> bool {
    exists|i: int| 0 <= i < s.len() && is_white_space(#[trigger] s[i])
}

/// The characters of `s`, in order.
pub fn chars_of(s: &str) -> (r: Vec<char>)
    ensures
        r@ == s@,
{
    let mut r: Vec<char> = Vec::new();
    for c in it: s.chars()
        invariant
            r@ == it.history(),
    {
        r.push(c);
    }
    r
}

/// Appends `c` to `s` (`String::push`).
#[verifier::external_body]
pub(crate) fn push_char(s: &mut String, c: char)
    ensures
        final(s)@ == old(s)@.push(c),
{
    s.push(c);
}

/// A string holding the characters `t[from..to]`.
pub fn string_of(t: &Vec<char>, from: usize, to: usize) -> (s: String)
    requires
        from <= to <= t.len(),
    ensures
        s@ == t@.subrange(from as int, to as int),
{
    let mut s = String::new();
    let mut i = from;
    while i < to
        invariant
            from <= i <= to <= t.len(),
            s@ == t@.subrange(from as int, i as int),
        decreases to - i,
    {
        push_char(&mut s, t[i]);
        i = i + 1;
        assert(s@ =~= t@.subrange(from as int, i as int));
    }
    s
}

/// A string holding the characters of `t`.
pub fn string_from_chars(t: &Vec<char>) -> (s: String)
    ensures
        s@ == t@,
{
    let s = string_of(t, 0, t.len());
    assert(t@.subrange(0, t@.len() as int) =~= t@);
    s
}

/// The characters `t[from..to]`, copied.
pub fn chars_between(t: &Vec<char>, from: usize, to: usize) -> (r: Vec<char>)
    requires
        from <= to <= t.len(),
    ensures
        r@ == t@.subrange(from as int, to as int),
{
    let mut r: Vec<char> = Vec::new();
    let mut i = from;
    while i < to
        invariant
            from <= i <= to <= t.len(),
            r@ == t@.subrange(from as int, i as int),
        decreases to - i,
    {
        r.push(t[i]);
        i = i + 1;
        assert(r@ =~= t@.subrange(from as int, i as int));
    }
    r
}

/// `s` with its leading white space removed (`str::trim_start`).
pub open spec fn trim_start(s: Seq<char>) -> Seq<char>
    decreases s.len(),
{
    if s.len() > 0 && is_white_space(s[0]) {
        trim_start(s.drop_first())
    } else {
        s
    }
}

/// `s` with its trailing white space removed (`str::trim_end`).
pub open spec fn trim_end(s: Seq<char>) -> Seq<char>
    decreases s.len(),
{
    if s.len() > 0 && is_white_space(s.last()) {
        trim_end(s.drop_last())
    } else {
        s
    }
}

/// `s` with its leading and trailing white space removed (`str::trim`).
pub open spec fn trim(s: Seq<char>) -> Seq<char> {
    trim_end(trim_start(s))
}

proof fn lemma_trim_start_skip(s: Seq<char>, i: int)
    requires
        0 <= i <= s.len(),
        forall|k: int| 0 <= k < i ==> is_white_space(#[trigger] s[k]),
    ensures
        trim_start(s) == trim_start(s.skip(i)),
    decreases i,
{
    if i > 0 {
        lemma_trim_start_skip(s, i - 1);
        assert(s.skip(i - 1).drop_first() =~= s.skip(i));
        assert(s.skip(i - 1)[0] == s[i - 1]);
    } else {
        assert(s.skip(0) =~= s);
    }
}

proof fn lemma_trim_end_take(s: Seq<char>, j: int)
    requires
        0 <= j <= s.len(),
        forall|k: int| j <= k < s.len() ==> is_white_space(#[trigger] s[k]),
    ensures
        trim_end(s) == trim_end(s.take(j)),
    decreases s.len() - j,
{
    if j < s.len() {
        lemma_trim_end_take(s, j + 1);
        assert(s.take(j + 1).drop_last() =~= s.take(j));
        assert(s.take(j + 1).last() == s[j]);
    } else {
        assert(s.take(j) =~= s);
    }
}

/// `t` with its leading and trailing white space removed.
pub fn trim_chars(t: &Vec<char>) -> (r: Vec<char>)
    ensures
        r@ == trim(t@),
{
    let n = t.len();
    let mut i: usize = 0;
    while i < n && is_white_space_char(t[i])
        invariant
            i <= n == t.len(),
            forall|k: int| 0 <= k < i ==> is_white_space(#[trigger] t@[k]),
        decreases n - i,
    {
        i = i + 1;
    }
    proof {
        lemma_trim_start_skip(t@, i as int);
    }
    let mut j: usize = n;
    while j > i && is_white_space_char(t[j - 1])
        invariant
            i <= j <= n == t.len(),
            forall|k: int| j <= k < n ==> is_white_space(#[trigger] t@[k]),
        decreases j,
    {
        j = j - 1;
    }
    let ghost rest = t@.skip(i as int);
    proof {
        assert(trim_start(rest) == rest);
        assert forall|k: int| j - i <= k < rest.len() implies is_white_space(#[trigger] rest[k]) by {
            assert(rest[k] == t@[k + i]);
        }
        lemma_trim_end_take(rest, j - i);
        let u = rest.take(j - i);
        assert(u =~= t@.subrange(i as int, j as int));
        if u.len() > 0 {
            assert(u.last() == t@[j - 1]);
        }
        assert(trim_end(u) == u);
    }
    chars_between(t, i, j)
}

/// The pieces of `s` between newline characters, as `str::split('\n')` yields them.
pub open spec fn split_newlines(s: Seq<char>) -> Seq<Seq<char>>
    decreases s.len(),
{
    if s.len() == 0 {
        seq![Seq::empty()]
    } else {
        let prev = split_newlines(s.drop_last());
        if s.last() == '\n' {
            prev.push(Seq::empty())
        } else {
            prev.update(prev.len() - 1, prev.last().push(s.last()))
        }
    }
}

/// `split_newlines` never yields an empty sequence of pieces.
pub proof fn lemma_split_newlines_nonempty(s: Seq<char>)
    ensures
        split_newlines(s).len() >= 1,
    decreases s.len(),
{
    if s.len() > 0 {
        lemma_split_newlines_nonempty(s.drop_last());
    }
}

/// The lines of `s` as `str::lines` yields them: the pieces between newlines,
/// without the empty piece after a final newline.  (`str::lines` also drops the
/// carriage return of a `\r\n` ending; every use here trims the line, which drops it
/// anyway.)
pub open spec fn text_lines(s: Seq<char>) -> Seq<Seq<char>> {
    let p = split_newlines(s);
    if p.last().len() == 0 {
        p.drop_last()
    } else {
        p
    }
}

/// `std::str::from_utf8`: the text that `bytes` encode, where they are valid UTF-8.
#[verifier::external_body]
pub(crate) fn str_from_utf8<'a>(bytes: &'a [u8]) -> (r: Option<&'a str>)
    ensures
        r is Some <==> valid_utf8(bytes@),
        r matches Some(s) ==> s@ == decode_utf8(bytes@),
{
    std::str::from_utf8(bytes).ok()
}

/// `l` without the carriage return that ends it, if one does.
pub open spec fn strip_cr(l: Seq<char>) -> Seq<char> {
    if l.len() > 0 && l.last() == '\r' {
        l.drop_last()
    } else {
        l
    }
}

/// The lines of `s` exactly as `str::lines` yields them: the pieces between newlines,
/// a piece that a newline ends without the carriage return before that newline, and
/// no empty piece after a final newline.
pub open spec fn str_lines(s: Seq<char>) -> Seq<Seq<char>> {
    let p = split_newlines(s);
    let ended = p.drop_last().map_values(|l: Seq<char>| strip_cr(l));
    if p.last().len() == 0 {
        ended
    } else {
        ended.push(p.last())
    }
}

/// Whether one of the lines of `text` (as `str::lines` yields them) is `line`.
pub open spec fn has_line(text: Seq<char>, line: Seq<char>) -> bool {
    exists|i: int| 0 <= i < str_lines(text).len() && #[trigger] str_lines(text)[i] == line
}

fn range_eq(t: &Vec<char>, from: usize, to: usize, line: &Vec<char>) -> (r: bool)
    requires
        from <= to <= t.len(),
    ensures
        r == (t@.subrange(from as int, to as int) == line@),
{
    if to - from != line.len() {
        return false;
    }
    let mut i: usize = 0;
    while i < line.len()
        invariant
            to - from == line.len(),
            from <= to <= t.len(),
            i <= line.len(),
            forall|k: int| 0 <= k < i ==> t@[from + k] == line@[k],
        decreases line.len() - i,
    {
        if t[from + i] != line[i] {
            assert(t@.subrange(from as int, to as int)[i as int] != line@[i as int]);
            return false;
        }
        i = i + 1;
    }
    assert(t@.subrange(from as int, to as int) =~= line@);
    true
}

/// The views of a sequence of character vectors.
pub open spec fn lines_view(v: Seq<Vec<char>>) -> Seq<Seq<char>> {
    v.map_values(|l: Vec<char>| l@)
}

/// The lines of `t` as `str::lines` yields them.
pub fn str_lines_chars(t: &Vec<char>) -> (r: Vec<Vec<char>>)
    ensures
        lines_view(r@) == str_lines(t@),
{
    let n = t.len();
    let mut out: Vec<Vec<char>> = Vec::new();
    let mut start: usize = 0;
    let mut i: usize = 0;
    proof {
        assert(t@.take(0) =~= Seq::<char>::empty());
        assert(split_newlines(t@.take(0)).drop_last() =~= Seq::<Seq<char>>::empty());
        assert(lines_view(out@) =~= Seq::<Seq<char>>::empty());
    }
    while i < n
        invariant
            n == t.len(),
            start <= i <= n,
            split_newlines(t@.take(i as int)).last() == t@.subrange(start as int, i as int),
            lines_view(out@) == split_newlines(t@.take(i as int)).drop_last().map_values(
                |x: Seq<char>| strip_cr(x),
            ),
        decreases n - i,
    {
        let ghost prev = split_newlines(t@.take(i as int));
        proof {
            lemma_split_newlines_nonempty(t@.take(i as int));
            assert(t@.take(i + 1).drop_last() =~= t@.take(i as int));
            assert(t@.take(i + 1).last() == t@[i as int]);
        }
        if t[i] == '\n' {
            let end = if i > start && t[i - 1] == '\r' {
                i - 1
            } else {
                i
            };
            let ghost piece = t@.subrange(start as int, i as int);
            let line = chars_between(t, start, end);
            assert(line@ =~= strip_cr(piece));
            let ghost before = lines_view(out@);
            out.push(line);
            proof {
                let cur = split_newlines(t@.take(i + 1));
                assert(cur == prev.push(Seq::empty()));
                assert(cur.drop_last() =~= prev);
                assert(prev =~= prev.drop_last().push(piece));
                assert(lines_view(out@) =~= before.push(strip_cr(piece)));
                assert(cur.drop_last().map_values(|x: Seq<char>| strip_cr(x)) =~= before.push(
                    strip_cr(piece),
                ));
            }
            start = i + 1;
            i = i + 1;
            assert(split_newlines(t@.take(i as int)).last() =~= t@.subrange(start as int, i as int));
        } else {
            proof {
                let cur = split_newlines(t@.take(i + 1));
                assert(cur == prev.update(prev.len() - 1, prev.last().push(t@[i as int])));
                assert(cur.drop_last() =~= prev.drop_last());
                assert(cur.last() =~= t@.subrange(start as int, i + 1));
            }
            i = i + 1;
        }
    }
    proof {
        assert(t@.take(n as int) =~= t@);
        lemma_split_newlines_nonempty(t@);
    }
    if start < n {
        let line = chars_between(t, start, n);
        let ghost before = lines_view(out@);
        out.push(line);
        assert(lines_view(out@) =~= before.push(line@));
    }
    out
}

/// Whether one of the lines of `text` (as `str::lines` yields them) is `line`.
pub fn text_has_line(text: &str, line: &str) -> (r: bool)
    ensures
        r == has_line(text@, line@),
{
    let t = chars_of(text);
    let l = chars_of(line);
    let lines = str_lines_chars(&t);
    let mut i: usize = 0;
    while i < lines.len()
        invariant
            i <= lines@.len(),
            l@ == line@,
            lines_view(lines@) == str_lines(text@),
            forall|k: int| 0 <= k < i ==> #[trigger] str_lines(text@)[k] != l@,
        decreases lines.len() - i,
    {
        assert(lines_view(lines@)[i as int] == lines@[i as int]@);
        if range_eq(&lines[i], 0, lines[i].len(), &l) {
            assert(lines@[i as int]@.subrange(0, lines@[i as int]@.len() as int) =~= lines@[i as int]@);
            assert(str_lines(text@)[i as int] == l@);
            assert(str_lines(text@).len() == lines@.len());
            assert(has_line(text@, line@));
            return true;
        }
        assert(lines@[i as int]@.subrange(0, lines@[i as int]@.len() as int) =~= lines@[i as int]@);
        i = i + 1;
    }
    false
}

} // verus!
