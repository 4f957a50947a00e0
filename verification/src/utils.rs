use regex_lite::Error as RegexError;
use vstd::prelude::*;

use crate::error::Error;
use crate::text::{chars_of, lines_view, push_char, str_lines, str_lines_chars};

verus! {

/// The pattern that a module id must match.
pub const MODULE_ID_PATTERN: &'static str = "^[a-zA-Z][a-zA-Z0-9._-]+$";

/// An ASCII letter, `a` to `z` or `A` to `Z`.
pub open spec fn is_ascii_letter(c: char) -> bool {
    ('a' <= c && c <= 'z') || ('A' <= c && c <= 'Z')
}

/// An ASCII digit, `0` to `9`.
pub open spec fn is_ascii_digit(c: char) -> bool {
    '0' <= c && c <= '9'
}

/// The shape of a module id: an ASCII letter, then one or more ASCII letters, digits,
/// dots, underscores or hyphens.
pub open spec fn module_id_shape(id: Seq<char>) -> bool {
    &&& id.len() >= 2
    &&& is_ascii_letter(id[0])
    &&& forall|i: int|
        1 <= i < id.len() ==> is_ascii_letter(#[trigger] id[i]) || is_ascii_digit(id[i]) || id[i]
            == '.' || id[i] == '_' || id[i] == '-'
}

/// Whether `regex_lite` finds a match of `pattern` in `haystack`; none where it
/// refuses the pattern.
pub uninterp spec fn regex_finds(pattern: Seq<char>, haystack: Seq<char>) -> Option<bool>;

/// `regex_lite::Regex::new(pattern)`, then `is_match(haystack)` on the regex.  Of the
/// module-id pattern, `^` and `$` anchor it at both ends of the haystack, so that it
/// matches exactly the ids of the shape `module_id_shape` states.
#[verifier::external_body]
fn regex_is_match(pattern: &str, haystack: &str) -> (r: Result<bool, RegexError>)
    ensures
        r is Ok <==> regex_finds(pattern@, haystack@) is Some,
        r matches Ok(b) ==> regex_finds(pattern@, haystack@) == Some(b),
        pattern@ == MODULE_ID_PATTERN@ ==> r is Ok && r->Ok_0 == module_id_shape(haystack@),
{
    match regex_lite::Regex::new(pattern) {
        Ok(re) => Ok(re.is_match(haystack)),
        Err(e) => Err(e),
    }
}

/// Checks that `module_id` has the shape `^[a-zA-Z][a-zA-Z0-9._-]+$`: it must start with
/// a letter, be at least two characters long, and hold only letters, digits, dots,
/// underscores and hyphens.
pub fn validate_module_id(module_id: &str) -> (r: Result<(), Error>)
    ensures
        r is Ok <==> module_id_shape(module_id@),
        r matches Err(e) ==> e matches Error::InvalidModuleID { module_id: m } && m@ == module_id@,
{
    match regex_is_match(MODULE_ID_PATTERN, module_id) {
        Ok(true) => Ok(()),
        Ok(false) => Err(Error::InvalidModuleID { module_id: module_id.to_owned() }),
        Err(e) => Err(Error::Regex(e)),
    }
}

/// An ASCII letter or digit.
pub open spec fn is_ascii_alphanumeric(c: char) -> bool {
    is_ascii_letter(c) || is_ascii_digit(c)
}

/// `fastrand::alphanumeric`: a random ASCII letter or digit.
#[verifier::external_body]
fn random_alphanumeric() -> (c: char)
    ensures
        is_ascii_alphanumeric(c),
{
    fastrand::alphanumeric()
}

/// `/mnt/`, where the temporary directory goes.
pub open spec fn mnt_prefix() -> Seq<char> {
    seq!['/', 'm', 'n', 't', '/']
}

/// A fresh path for the temporary directory: `/mnt/` and ten random ASCII letters and
/// digits.
pub fn generate_tmp() -> (r: String)
    ensures
        r@.len() == 15,
        r@.take(5) == mnt_prefix(),
        forall|i: int| 5 <= i < 15 ==> is_ascii_alphanumeric(#[trigger] r@[i]),
{
    let mut r = String::new();
    push_char(&mut r, '/');
    push_char(&mut r, 'm');
    push_char(&mut r, 'n');
    push_char(&mut r, 't');
    push_char(&mut r, '/');
    assert(r@ =~= mnt_prefix());
    let mut i: usize = 0;
    while i < 10
        invariant
            i <= 10,
            r@.len() == 5 + i,
            r@.take(5) == mnt_prefix(),
            forall|k: int| 5 <= k < 5 + i ==> is_ascii_alphanumeric(#[trigger] r@[k]),
        decreases 10 - i,
    {
        let c = random_alphanumeric();
        let ghost before = r@;
        push_char(&mut r, c);
        assert(r@.take(5) =~= before.take(5));
        assert(forall|k: int| 5 <= k < 5 + i ==> r@[k] == before[k]);
        i = i + 1;
    }
    r
}

/// Appends `t` to `s` (`String::push_str`).
#[verifier::external_body]
pub(crate) fn push_str(s: &mut String, t: &str)
    ensures
        final(s)@ == old(s)@ + t@,
{
    s.push_str(t);
}

/// The decimal digit `d`.
pub open spec fn digit_char(d: int) -> char {
    if d <= 0 {
        '0'
    } else if d == 1 {
        '1'
    } else if d == 2 {
        '2'
    } else if d == 3 {
        '3'
    } else if d == 4 {
        '4'
    } else if d == 5 {
        '5'
    } else if d == 6 {
        '6'
    } else if d == 7 {
        '7'
    } else if d == 8 {
        '8'
    } else {
        '9'
    }
}

/// `n` written in decimal, as `format!("{n}")` writes it.
pub open spec fn decimal(n: nat) -> Seq<char>
    decreases n,
{
    if n < 10 {
        seq![digit_char(n as int)]
    } else {
        decimal(n / 10).push(digit_char((n % 10) as int))
    }
}

fn digit_exec(d: u64) -> (c: char)
    requires
        d < 10,
    ensures
        c == digit_char(d as int),
{
    if d == 0 {
        '0'
    } else if d == 1 {
        '1'
    } else if d == 2 {
        '2'
    } else if d == 3 {
        '3'
    } else if d == 4 {
        '4'
    } else if d == 5 {
        '5'
    } else if d == 6 {
        '6'
    } else if d == 7 {
        '7'
    } else if d == 8 {
        '8'
    } else {
        '9'
    }
}

/// Appends `n` written in decimal to `s`.
pub fn push_decimal(s: &mut String, n: u64)
    ensures
        final(s)@ == old(s)@ + decimal(n as nat),
    decreases n,
{
    if n >= 10 {
        push_decimal(s, n / 10);
    }
    push_char(s, digit_exec(n % 10));
    proof {
        if n >= 10 {
            assert(s@ =~= old(s)@ + decimal((n / 10) as nat).push(digit_char((n % 10) as int)));
        } else {
            assert(s@ =~= old(s)@ + seq![digit_char(n as int)]);
        }
    }
}

/// The start of the description line of `module.prop`.
pub const DESCRIPTION_KEY: &'static str = "description";

/// What a new description line starts with.
pub const DESCRIPTION_ASSIGN: &'static str = "description=";

/// The description up to the count of mounted files.
pub const DESC_HEAD: &'static str = "[\u{1F60B} MF ";

/// The description between the counts of files and of symlinks.
pub const DESC_MS: &'static str = ",MS ";

/// The description between the counts of symlinks and of ignored paths.
pub const DESC_IG: &'static str = ",IG ";

/// The description after the counts.
pub const DESC_TAIL: &'static str = "] An implementation of a metamodule using Magic Mount.";

/// The description of the module after a mount: the counts of mounted files,
/// symlinks and ignored paths, then what the module is.
pub open spec fn description_text(file: u32, symbol: u32, ignore: u32) -> Seq<char> {
    DESC_HEAD@ + decimal(file as nat) + DESC_MS@ + decimal(symbol as nat) + DESC_IG@ + decimal(
        ignore as nat,
    ) + DESC_TAIL@
}

/// A line of `module.prop` after the description is set to `text`: a line that
/// starts with `description` becomes `description=` and the text.
pub open spec fn described_line(l: Seq<char>, text: Seq<char>) -> Seq<char> {
    if l.len() >= DESCRIPTION_KEY@.len() && l.take(DESCRIPTION_KEY@.len() as int)
        == DESCRIPTION_KEY@ {
        DESCRIPTION_ASSIGN@ + text
    } else {
        l
    }
}

/// `lines` joined by newlines (`join("\n")`).
pub open spec fn joined_by_newline(lines: Seq<Seq<char>>) -> Seq<char>
    decreases lines.len(),
{
    if lines.len() == 0 {
        Seq::empty()
    } else if lines.len() == 1 {
        lines[0]
    } else {
        joined_by_newline(lines.drop_last()) + seq!['\n'] + lines.last()
    }
}

/// The text of `module.prop` after its description is set for the counts.
pub open spec fn updated_module_prop(prop: Seq<char>, file: u32, symbol: u32, ignore: u32) -> Seq<
    char,
> {
    joined_by_newline(
        str_lines(prop).map_values(|l: Seq<char>| described_line(l, description_text(file, symbol, ignore))),
    )
}

/// The description of the module after a mount.
pub fn description(file: u32, symbol: u32, ignore: u32) -> (r: String)
    ensures
        r@ == description_text(file, symbol, ignore),
{
    let mut r = String::new();
    push_str(&mut r, DESC_HEAD);
    push_decimal(&mut r, file as u64);
    push_str(&mut r, DESC_MS);
    push_decimal(&mut r, symbol as u64);
    push_str(&mut r, DESC_IG);
    push_decimal(&mut r, ignore as u64);
    push_str(&mut r, DESC_TAIL);
    assert(r@ =~= description_text(file, symbol, ignore));
    r
}

fn starts_with_chars(l: &Vec<char>, key: &Vec<char>) -> (r: bool)
    ensures
        r == (l@.len() >= key@.len() && l@.take(key@.len() as int) == key@),
{
    if l.len() < key.len() {
        return false;
    }
    let mut i: usize = 0;
    while i < key.len()
        invariant
            i <= key@.len() <= l@.len(),
            forall|k: int| 0 <= k < i ==> l@[k] == key@[k],
        decreases key.len() - i,
    {
        if l[i] != key[i] {
            assert(l@.take(key@.len() as int)[i as int] != key@[i as int]);
            return false;
        }
        i = i + 1;
    }
    assert(l@.take(key@.len() as int) =~= key@);
    true
}

fn push_vec_chars(s: &mut String, v: &Vec<char>)
    ensures
        final(s)@ == old(s)@ + v@,
{
    let ghost start = s@;
    let mut i: usize = 0;
    while i < v.len()
        invariant
            i <= v@.len(),
            s@ == start + v@.take(i as int),
        decreases v.len() - i,
    {
        push_char(s, v[i]);
        i = i + 1;
        assert(s@ =~= start + v@.take(i as int));
    }
    assert(v@.take(v@.len() as int) =~= v@);
}

/// The text of `module.prop` with every line that starts with `description` replaced
/// by `description=` and the description for the counts; lines joined by newlines.
pub fn update_desc(prop: &str, file: u32, symbol: u32, ignore: u32) -> (r: String)
    ensures
        r@ == updated_module_prop(prop@, file, symbol, ignore),
{
    let text = description(file, symbol, ignore);
    let t = chars_of(prop);
    let lines = str_lines_chars(&t);
    let key = chars_of(DESCRIPTION_KEY);
    let ghost mapped = str_lines(prop@).map_values(
        |l: Seq<char>| described_line(l, description_text(file, symbol, ignore)),
    );
    let mut r = String::new();
    let mut i: usize = 0;
    assert(mapped.take(0) =~= Seq::<Seq<char>>::empty());
    while i < lines.len()
        invariant
            i <= lines@.len(),
            lines_view(lines@) == str_lines(prop@),
            key@ == DESCRIPTION_KEY@,
            text@ == description_text(file, symbol, ignore),
            mapped == str_lines(prop@).map_values(
                |l: Seq<char>| described_line(l, description_text(file, symbol, ignore)),
            ),
            r@ == joined_by_newline(mapped.take(i as int)),
        decreases lines.len() - i,
    {
        let ghost before = r@;
        if i > 0 {
            push_char(&mut r, '\n');
        }
        assert(lines_view(lines@)[i as int] == lines@[i as int]@);
        if starts_with_chars(&lines[i], &key) {
            push_str(&mut r, DESCRIPTION_ASSIGN);
            push_str(&mut r, text.as_str());
        } else {
            push_vec_chars(&mut r, &lines[i]);
        }
        proof {
            let m = mapped.take(i + 1);
            assert(m.drop_last() =~= mapped.take(i as int));
            assert(m.last() == mapped[i as int]);
            if i == 0 {
                assert(r@ =~= mapped[0]);
            } else {
                assert(r@ =~= before + seq!['\n'] + mapped[i as int]);
            }
        }
        i = i + 1;
    }
    assert(mapped.take(i as int) =~= mapped);
    r
}

} // verus!
