use vstd::prelude::*;
use vstd::slice::slice_subrange;
use vstd::string::StringSliceAdditionalSpecFns;
use vstd::utf8::{decode_utf8, valid_utf8};

use crate::error::Error;
use crate::parser::mount::{Command, CommandModel};
use crate::parser::{commands_view, parser_custom};
use crate::text::{chars_of, has_white_space, is_white_space, is_white_space_char, push_char, str_from_utf8};

verus! {

/// The directory that holds the modules.
pub const MODULE_PATH: &'static str = "/data/adb/modules/";

/// A bind mount of the custom list, as the web UI sees it.
#[derive(Debug, Clone)]
pub struct ApiCustomMount {
    pub source: String,
    pub target: String,
}

impl View for ApiCustomMount {
    type V = (Seq<char>, Seq<char>);

    open spec fn view(&self) -> (Seq<char>, Seq<char>) {
        (self.source@, self.target@)
    }
}

/// The configuration as the web UI reads it.
#[derive(Debug)]
pub struct ApiConfig {
    pub moduledir: String,
    pub mountsource: String,
    pub partitions: Vec<String>,
    pub umount: bool,
    pub disable_umount: bool,
    pub ignore_list: Vec<String>,
    pub custom_mounts: Vec<ApiCustomMount>,
}

/// A change to the configuration that the web UI sends: each field that is present
/// replaces what the configuration holds.
#[derive(Debug)]
pub struct ApiConfigPayload {
    pub mountsource: Option<String>,
    pub partitions: Option<Vec<String>>,
    pub umount: Option<bool>,
    pub disable_umount: Option<bool>,
    pub ignore_list: Option<Vec<String>>,
    pub custom_mounts: Option<Vec<ApiCustomMount>>,
}

/// The configuration of the mount.
#[derive(Debug, Clone)]
pub struct Config {
    pub mountsource: String,
    pub partitions: Vec<String>,
    pub umount: bool,
}

/// `KSU`, the mount source that a configuration without one uses.
pub open spec fn default_mountsource_model() -> Seq<char> {
    seq!['K', 'S', 'U']
}

/// The views of a sequence of strings.
pub open spec fn strings_view(v: Seq<String>) -> Seq<Seq<char>> {
    v.map_values(|s: String| s@)
}

/// The views of a sequence of custom mounts.
pub open spec fn mounts_view(v: Seq<ApiCustomMount>) -> Seq<(Seq<char>, Seq<char>)> {
    v.map_values(|m: ApiCustomMount| m@)
}

/// The mount source that a configuration without one uses.
pub fn default_mountsource() -> (r: String)
    ensures
        r@ == default_mountsource_model(),
{
    let mut r = String::new();
    push_char(&mut r, 'K');
    push_char(&mut r, 'S');
    push_char(&mut r, 'U');
    assert(r@ =~= default_mountsource_model());
    r
}

/// Whether a configuration is the default one.
pub open spec fn is_default_config(c: Config) -> bool {
    &&& c.mountsource@ == default_mountsource_model()
    &&& c.partitions@.len() == 0
    &&& !c.umount
}

impl Default for Config {
    fn default() -> (r: Self)
        ensures
            is_default_config(r),
    {
        Config { mountsource: default_mountsource(), partitions: Vec::new(), umount: false }
    }
}

/// The configuration after `payload` is applied to `c`: each field that the payload
/// holds replaces the one of `c`; `umount` comes from the payload's `umount` if it has
/// one, else from the negation of its `disable_umount`.
pub open spec fn applied(c: Config, payload: ApiConfigPayload) -> Config {
    Config {
        mountsource: match payload.mountsource {
            Some(m) => m,
            None => c.mountsource,
        },
        partitions: match payload.partitions {
            Some(p) => p,
            None => c.partitions,
        },
        umount: match payload.umount {
            Some(u) => u,
            None => match payload.disable_umount {
                Some(d) => !d,
                None => c.umount,
            },
        },
    }
}

impl Config {
    /// Whether mounts are to be handed to KernelSU for unmounting.
    pub fn umount_enabled(&self) -> (r: bool)
        ensures
            r == self.umount,
    {
        self.umount
    }

    /// Sets whether mounts are to be handed to KernelSU for unmounting.
    pub fn set_umount_enabled(&mut self, enabled: bool)
        ensures
            final(self).umount == enabled,
            final(self).mountsource == old(self).mountsource,
            final(self).partitions == old(self).partitions,
    {
        self.umount = enabled;
    }

    /// The configuration that was read, or the default one where none could be read.
    pub fn load_or_default(loaded: Option<Config>) -> (r: Config)
        ensures
            match loaded {
                Some(c) => r == c,
                None => is_default_config(r),
            },
    {
        match loaded {
            Some(c) => c,
            None => Config::default(),
        }
    }

    /// The ignore list and the bind mounts of the custom list whose text is `content`.
    pub fn read_custom_lists(content: &str) -> (r: (Vec<String>, Vec<ApiCustomMount>))
        ensures
            strings_view(r.0@) == ignored_sources(
                crate::parser::custom_list_commands(content@),
            ),
            mounts_view(r.1@) == mounted_pairs(crate::parser::custom_list_commands(content@)),
    {
        let commands = parser_custom(content);
        split_commands(&commands)
    }

    /// The text of a path in the custom list: in double quotes if it holds white
    /// space, else as it is.
    pub fn format_custom_path(path: &str) -> (r: String)
        ensures
            r@ == format_path_model(path@),
    {
        let t = chars_of(path);
        let mut has_ws = false;
        let mut i: usize = 0;
        while i < t.len()
            invariant
                i <= t.len(),
                has_ws <==> exists|k: int| 0 <= k < i && is_white_space(#[trigger] t@[k]),
            decreases t.len() - i,
        {
            if is_white_space_char(t[i]) {
                has_ws = true;
            }
            i = i + 1;
        }
        let mut r = String::new();
        if has_ws {
            push_char(&mut r, '"');
        }
        let mut j: usize = 0;
        let ghost start = r@;
        while j < t.len()
            invariant
                j <= t.len(),
                r@ == start + t@.take(j as int),
            decreases t.len() - j,
        {
            push_char(&mut r, t[j]);
            j = j + 1;
            assert(r@ =~= start + t@.take(j as int));
        }
        assert(t@.take(t@.len() as int) =~= t@);
        if has_ws {
            push_char(&mut r, '"');
        }
        assert(r@ =~= format_path_model(path@));
        r
    }

    /// The configuration as the web UI reads it, with the given custom list.
    pub fn into_api(self, ignore_list: Vec<String>, custom_mounts: Vec<ApiCustomMount>) -> (r:
        ApiConfig)
        ensures
            r.moduledir@ == trim_end_char(MODULE_PATH@, '/'),
            r.mountsource == self.mountsource,
            r.partitions == self.partitions,
            r.umount == self.umount,
            r.disable_umount == !self.umount,
            r.ignore_list == ignore_list,
            r.custom_mounts == custom_mounts,
    {
        let umount_enabled = self.umount_enabled();
        ApiConfig {
            moduledir: trim_end_matches_char(MODULE_PATH, '/'),
            mountsource: self.mountsource,
            partitions: self.partitions,
            umount: umount_enabled,
            disable_umount: !umount_enabled,
            ignore_list,
            custom_mounts,
        }
    }

    /// Applies the fields that `payload` holds to the configuration.
    pub fn apply_api_payload(&mut self, payload: ApiConfigPayload)
        ensures
            *final(self) == applied(*old(self), payload),
    {
        if let Some(mountsource) = payload.mountsource {
            self.mountsource = mountsource;
        }
        if let Some(partitions) = payload.partitions {
            self.partitions = partitions;
        }
        if let Some(umount) = payload.umount {
            self.set_umount_enabled(umount);
        } else if let Some(disable_umount) = payload.disable_umount {
            self.set_umount_enabled(!disable_umount);
        }
    }
}

/// `s` without the copies of `c` that end it (`str::trim_end_matches`).
pub open spec fn trim_end_char(s: Seq<char>, c: char) -> Seq<char>
    decreases s.len(),
{
    if s.len() > 0 && s.last() == c {
        trim_end_char(s.drop_last(), c)
    } else {
        s
    }
}

proof fn lemma_trim_end_char(s: Seq<char>, c: char, j: int)
    requires
        0 <= j <= s.len(),
        forall|k: int| j <= k < s.len() ==> #[trigger] s[k] == c,
    ensures
        trim_end_char(s, c) == trim_end_char(s.take(j), c),
    decreases s.len() - j,
{
    if j < s.len() {
        lemma_trim_end_char(s, c, j + 1);
        assert(s.take(j + 1).drop_last() =~= s.take(j));
    } else {
        assert(s.take(j) =~= s);
    }
}

/// `s` without the copies of `c` that end it.
pub fn trim_end_matches_char(s: &str, c: char) -> (r: String)
    ensures
        r@ == trim_end_char(s@, c),
{
    let t = chars_of(s);
    let mut j = t.len();
    while j > 0 && t[j - 1] == c
        invariant
            j <= t.len(),
            forall|k: int| j <= k < t.len() ==> #[trigger] t@[k] == c,
        decreases j,
    {
        j = j - 1;
    }
    proof {
        lemma_trim_end_char(t@, c, j as int);
        let u = t@.take(j as int);
        if u.len() > 0 {
            assert(u.last() == t@[j - 1]);
        }
    }
    let r = crate::text::string_of(&t, 0, j);
    assert(r@ =~= t@.take(j as int));
    r
}

/// The sources of the `ignore` commands of `cs`, in order.
pub open spec fn ignored_sources(cs: Seq<CommandModel>) -> Seq<Seq<char>>
    decreases cs.len(),
{
    if cs.len() == 0 {
        Seq::empty()
    } else {
        let prev = ignored_sources(cs.drop_last());
        match cs.last() {
            CommandModel::Ignore { source } => prev.push(source),
            CommandModel::Mount { .. } => prev,
        }
    }
}

/// The source and target of the `bind` commands of `cs`, in order.
pub open spec fn mounted_pairs(cs: Seq<CommandModel>) -> Seq<(Seq<char>, Seq<char>)>
    decreases cs.len(),
{
    if cs.len() == 0 {
        Seq::empty()
    } else {
        let prev = mounted_pairs(cs.drop_last());
        match cs.last() {
            CommandModel::Mount { source, target } => prev.push((source, target)),
            CommandModel::Ignore { .. } => prev,
        }
    }
}

/// Sorts the commands of the custom list into its ignore list and its bind mounts,
/// each in the order of the commands.
pub fn split_commands(commands: &Vec<Command>) -> (r: (Vec<String>, Vec<ApiCustomMount>))
    ensures
        strings_view(r.0@) == ignored_sources(commands_view(commands@)),
        mounts_view(r.1@) == mounted_pairs(commands_view(commands@)),
{
    let mut ignore_list: Vec<String> = Vec::new();
    let mut custom_mounts: Vec<ApiCustomMount> = Vec::new();
    let mut i: usize = 0;
    while i < commands.len()
        invariant
            i <= commands.len(),
            strings_view(ignore_list@) == ignored_sources(commands_view(commands@.take(i as int))),
            mounts_view(custom_mounts@) == mounted_pairs(commands_view(commands@.take(i as int))),
        decreases commands.len() - i,
    {
        let ghost cs = commands_view(commands@.take(i + 1));
        proof {
            assert(cs.drop_last() =~= commands_view(commands@.take(i as int)));
            assert(cs.last() == commands@[i as int]@);
        }
        let ghost old_ignore = ignore_list@;
        let ghost old_mounts = custom_mounts@;
        match &commands[i] {
            Command::Ignore { source } => {
                ignore_list.push(source.clone());
                assert(strings_view(ignore_list@) =~= strings_view(old_ignore).push(source@));
            },
            Command::Mount { source, target } => {
                custom_mounts.push(ApiCustomMount { source: source.clone(), target: target.clone() });
                assert(mounts_view(custom_mounts@) =~= mounts_view(old_mounts).push(
                    (source@, target@),
                ));
            },
        }
        i = i + 1;
    }
    assert(commands@.take(commands.len() as int) =~= commands@);
    (ignore_list, custom_mounts)
}

/// The text of a path in the custom list: in double quotes if it holds white space.
pub open spec fn format_path_model(p: Seq<char>) -> Seq<char> {
    if has_white_space(p) {
        seq!['"'] + p + seq!['"']
    } else {
        p
    }
}

/// The line of the custom list that leaves out `source`.
pub open spec fn ignore_line(source: Seq<char>) -> Seq<char> {
    seq!['i', 'g', 'n', 'o', 'r', 'e', ' '] + format_path_model(source)
}

/// The line of the custom list that bind-mounts `source` onto `target`.
pub open spec fn bind_line(source: Seq<char>, target: Seq<char>) -> Seq<char> {
    seq!['b', 'i', 'n', 'd', ' '] + format_path_model(source) + seq![' '] + format_path_model(
        target,
    )
}

/// The lines of a custom list: an `ignore` line per ignored path, then a `bind` line
/// per mount.
pub open spec fn custom_list_lines(
    ignores: Seq<Seq<char>>,
    mounts: Seq<(Seq<char>, Seq<char>)>,
) -> Seq<Seq<char>> {
    ignores.map_values(|p: Seq<char>| ignore_line(p)) + mounts.map_values(
        |m: (Seq<char>, Seq<char>)| bind_line(m.0, m.1),
    )
}

/// `lines` joined by newlines, with a newline after the last one.
pub open spec fn joined_lines(lines: Seq<Seq<char>>) -> Seq<char>
    decreases lines.len(),
{
    if lines.len() == 0 {
        Seq::empty()
    } else {
        joined_lines(lines.drop_last()) + lines.last() + seq!['\n']
    }
}

/// The text of the custom list that holds `ignores` and `mounts`.
pub open spec fn custom_list_text(
    ignores: Seq<Seq<char>>,
    mounts: Seq<(Seq<char>, Seq<char>)>,
) -> Seq<char> {
    joined_lines(custom_list_lines(ignores, mounts))
}

/// Appends the characters of `t` to `s`.
fn push_chars(s: &mut String, src: &String)
    ensures
        final(s)@ == old(s)@ + src@,
{
    let ghost t = src@;
    let v = chars_of(src.as_str());
    let ghost start = s@;
    let mut i: usize = 0;
    while i < v.len()
        invariant
            i <= v.len(),
            v@ == t,
            s@ == start + t.take(i as int),
        decreases v.len() - i,
    {
        push_char(s, v[i]);
        i = i + 1;
        assert(s@ =~= start + t.take(i as int));
    }
    assert(t.take(t.len() as int) =~= t);
}

/// The text of the custom list that holds `ignore_list` and `custom_mounts`.
pub fn custom_list_content(ignore_list: &Vec<String>, custom_mounts: &Vec<ApiCustomMount>) -> (r:
    String)
    ensures
        r@ == custom_list_text(strings_view(ignore_list@), mounts_view(custom_mounts@)),
{
    let ghost ignores = strings_view(ignore_list@);
    let ghost mounts = mounts_view(custom_mounts@);
    let ghost lines = custom_list_lines(ignores, mounts);
    let mut r = String::new();
    let mut i: usize = 0;
    proof {
        assert(lines.take(0) =~= Seq::<Seq<char>>::empty());
    }
    while i < ignore_list.len()
        invariant
            i <= ignore_list.len(),
            ignores == strings_view(ignore_list@),
            lines == custom_list_lines(ignores, mounts),
            r@ == joined_lines(lines.take(i as int)),
        decreases ignore_list.len() - i,
    {
        let p = Config::format_custom_path(ignore_list[i].as_str());
        let ghost before = r@;
        push_char(&mut r, 'i');
        push_char(&mut r, 'g');
        push_char(&mut r, 'n');
        push_char(&mut r, 'o');
        push_char(&mut r, 'r');
        push_char(&mut r, 'e');
        push_char(&mut r, ' ');
        push_chars(&mut r, &p);
        push_char(&mut r, '\n');
        proof {
            assert(lines[i as int] == ignore_line(ignores[i as int]));
            assert(lines.take(i + 1).drop_last() =~= lines.take(i as int));
            assert(r@ =~= before + ignore_line(ignores[i as int]) + seq!['\n']);
        }
        i = i + 1;
    }
    let n = ignore_list.len();
    let mut j: usize = 0;
    while j < custom_mounts.len()
        invariant
            j <= custom_mounts.len(),
            n == ignore_list.len() == ignores.len(),
            mounts == mounts_view(custom_mounts@),
            lines == custom_list_lines(ignores, mounts),
            r@ == joined_lines(lines.take(n + j)),
        decreases custom_mounts.len() - j,
    {
        let s = Config::format_custom_path(custom_mounts[j].source.as_str());
        let t = Config::format_custom_path(custom_mounts[j].target.as_str());
        let ghost before = r@;
        push_char(&mut r, 'b');
        push_char(&mut r, 'i');
        push_char(&mut r, 'n');
        push_char(&mut r, 'd');
        push_char(&mut r, ' ');
        push_chars(&mut r, &s);
        push_char(&mut r, ' ');
        push_chars(&mut r, &t);
        push_char(&mut r, '\n');
        proof {
            assert(lines[n + j] == bind_line(mounts[j as int].0, mounts[j as int].1));
            assert(lines.take(n + j + 1).drop_last() =~= lines.take(n + j));
            assert(r@ =~= before + bind_line(mounts[j as int].0, mounts[j as int].1) + seq![
                '\n',
            ]);
        }
        j = j + 1;
    }
    assert(lines.take(n + j) =~= lines);
    r
}

/// The value of a hexadecimal digit.
pub open spec fn hex_digit_value(c: char) -> Option<int> {
    let v = c as u32;
    if 0x30 <= v <= 0x39 {
        Some(v - 0x30)
    } else if 0x61 <= v <= 0x66 {
        Some(v - 0x61 + 10)
    } else if 0x41 <= v <= 0x46 {
        Some(v - 0x41 + 10)
    } else {
        None
    }
}

/// The value of a run of hexadecimal digits, most significant first.
pub open spec fn hex_digits_value(d: Seq<char>) -> Option<int>
    decreases d.len(),
{
    if d.len() == 0 {
        Some(0)
    } else {
        match (hex_digits_value(d.drop_last()), hex_digit_value(d.last())) {
            (Some(v), Some(x)) => Some(v * 16 + x),
            _ => None,
        }
    }
}

/// What `u8::from_str_radix(s, 16)` gives: an optional `+`, then one or more
/// hexadecimal digits whose value fits in a byte.
pub open spec fn u8_from_hex(s: Seq<char>) -> Option<u8> {
    let d = if s.len() > 0 && s[0] == '+' {
        s.drop_first()
    } else {
        s
    };
    if d.len() == 0 {
        None
    } else {
        match hex_digits_value(d) {
            Some(v) => if v <= 255 {
                Some(v as u8)
            } else {
                None
            },
            None => None,
        }
    }
}

proof fn lemma_hex_digits_prefix(d: Seq<char>, i: int, j: int)
    requires
        0 <= i <= j <= d.len(),
    ensures
        match hex_digits_value(d.take(i)) {
            None => hex_digits_value(d.take(j)) is None,
            Some(v) => hex_digits_value(d.take(j)) is None || hex_digits_value(d.take(j))->0 >= v,
        },
    decreases j - i,
{
    if j > i {
        lemma_hex_digits_prefix(d, i, j - 1);
        assert(d.take(j).drop_last() =~= d.take(j - 1));
        lemma_hex_digits_nonneg(d.take(j - 1));
    }
}

proof fn lemma_hex_digits_nonneg(d: Seq<char>)
    ensures
        hex_digits_value(d) matches Some(v) ==> v >= 0,
    decreases d.len(),
{
    if d.len() > 0 {
        lemma_hex_digits_nonneg(d.drop_last());
    }
}

fn hex_digit_exec(c: char) -> (r: Option<u32>)
    ensures
        match r {
            Some(x) => hex_digit_value(c) == Some(x as int) && x < 16,
            None => hex_digit_value(c) is None,
        },
{
    let v = c as u32;
    if 0x30 <= v && v <= 0x39 {
        Some(v - 0x30)
    } else if 0x61 <= v && v <= 0x66 {
        Some(v - 0x61 + 10)
    } else if 0x41 <= v && v <= 0x46 {
        Some(v - 0x41 + 10)
    } else {
        None
    }
}

/// `u8::from_str_radix(s, 16)` on the characters `s`.
fn u8_from_hex_exec(s: &Vec<char>) -> (r: Option<u8>)
    ensures
        r == u8_from_hex(s@),
{
    let start: usize = if s.len() > 0 && s[0] == '+' {
        1
    } else {
        0
    };
    let ghost d = if s@.len() > 0 && s@[0] == '+' {
        s@.drop_first()
    } else {
        s@
    };
    assert(d =~= s@.skip(start as int));
    if start == s.len() {
        return None;
    }
    let mut acc: u32 = 0;
    let mut i: usize = start;
    assert(d.take(0) =~= Seq::<char>::empty());
    while i < s.len()
        invariant
            start <= i <= s.len(),
            d == s@.skip(start as int),
            d == (if s@.len() > 0 && s@[0] == '+' {
                s@.drop_first()
            } else {
                s@
            }),
            d.len() > 0,
            acc <= 255,
            hex_digits_value(d.take(i - start)) == Some(acc as int),
        decreases s.len() - i,
    {
        let ghost k = i - start;
        proof {
            assert(d.take(k + 1).drop_last() =~= d.take(k));
            assert(d.take(k + 1).last() == s@[i as int]);
        }
        match hex_digit_exec(s[i]) {
            None => {
                proof {
                    assert(hex_digits_value(d.take(k + 1)) is None);
                    lemma_hex_digits_prefix(d, k + 1, d.len() as int);
                    assert(d.take(d.len() as int) =~= d);
                    assert(hex_digits_value(d) is None);
                }
                return None;
            },
            Some(x) => {
                let next = acc * 16 + x;
                if next > 255 {
                    proof {
                        assert(hex_digits_value(d.take(k + 1)) == Some(next as int));
                        lemma_hex_digits_prefix(d, k + 1, d.len() as int);
                        assert(d.take(d.len() as int) =~= d);
                    }
                    return None;
                }
                acc = next;
            },
        }
        i = i + 1;
    }
    assert(d.take(i - start) =~= d);
    Some(acc as u8)
}

/// The two bytes of `b` that give the `k`th byte of a hex payload.
pub open spec fn hex_pair(b: Seq<u8>, k: int) -> Seq<u8> {
    b.subrange(2 * k, 2 * k + 2)
}

/// The byte that a two-byte chunk of a hex payload gives: the chunk must be UTF-8
/// and its text what `u8::from_str_radix` reads in base 16.
pub open spec fn hex_pair_byte(c: Seq<u8>) -> Option<u8> {
    if valid_utf8(c) {
        u8_from_hex(decode_utf8(c))
    } else {
        None
    }
}

/// The error for a chunk that gives no byte.
pub open spec fn hex_pair_error(c: Seq<u8>, e: Error) -> bool {
    if valid_utf8(c) {
        e matches Error::InvalidHexByte { hex } && hex@ == decode_utf8(c)
    } else {
        e is HexNotUtf8
    }
}

/// Decodes a hex payload: each two bytes of `input` give one byte.  A payload of odd
/// length is refused with `PayloadContain`; otherwise the first chunk that gives no
/// byte is refused, with `HexNotUtf8` where it is not UTF-8 and with `InvalidHexByte`
/// and its text where it is not a hexadecimal byte.
pub fn decode_hex(input: &str) -> (r: Result<Vec<u8>, Error>)
    ensures
        input.spec_bytes().len() % 2 == 1 ==> r matches Err(Error::PayloadContain),
        input.spec_bytes().len() % 2 == 0 ==> match r {
            Ok(v) => {
                &&& v@.len() * 2 == input.spec_bytes().len()
                &&& forall|k: int|
                    0 <= k < v@.len() ==> hex_pair_byte(hex_pair(input.spec_bytes(), k)) == Some(
                        #[trigger] v@[k],
                    )
            },
            Err(e) => exists|k: int|
                {
                    &&& 0 <= k < input.spec_bytes().len() / 2
                    &&& forall|j: int|
                        0 <= j < k ==> #[trigger] hex_pair_byte(hex_pair(input.spec_bytes(), j)) is Some
                    &&& hex_pair_byte(hex_pair(input.spec_bytes(), k)) is None
                    &&& hex_pair_error(hex_pair(input.spec_bytes(), k), e)
                },
        },
{
    let bytes = input.as_bytes();
    let n = bytes.len();
    if n % 2 != 0 {
        return Err(Error::PayloadContain);
    }
    let ghost b = input.spec_bytes();
    let mut out: Vec<u8> = Vec::new();
    let mut i: usize = 0;
    while i < n / 2
        invariant
            n == bytes@.len() == b.len(),
            b == input.spec_bytes(),
            bytes@ == b,
            n % 2 == 0,
            i <= n / 2,
            out@.len() == i,
            forall|k: int| 0 <= k < i ==> hex_pair_byte(hex_pair(b, k)) == Some(#[trigger] out@[k]),
        decreases n / 2 - i,
    {
        let chunk = slice_subrange(bytes, 2 * i, 2 * i + 2);
        assert(chunk@ == hex_pair(b, i as int));
        match str_from_utf8(chunk) {
            None => {
                assert forall|j: int| 0 <= j < i implies #[trigger] hex_pair_byte(hex_pair(b, j)) is Some by {
                    assert(hex_pair_byte(hex_pair(b, j)) == Some(out@[j]));
                }
                return Err(Error::HexNotUtf8);
            },
            Some(text) => {
                let cs = chars_of(text);
                match u8_from_hex_exec(&cs) {
                    None => {
                        assert forall|j: int| 0 <= j < i implies #[trigger] hex_pair_byte(hex_pair(b, j)) is Some by {
                            assert(hex_pair_byte(hex_pair(b, j)) == Some(out@[j]));
                        }
                        return Err(Error::InvalidHexByte { hex: text.to_owned() });
                    },
                    Some(v) => {
                        out.push(v);
                    },
                }
            },
        }
        i = i + 1;
    }
    Ok(out)
}

/// `--payload`, the flag before the payload argument.
pub open spec fn payload_flag() -> Seq<char> {
    seq!['-', '-', 'p', 'a', 'y', 'l', 'o', 'a', 'd']
}

fn is_payload_flag(s: &String) -> (r: bool)
    ensures
        r == (s@ == payload_flag()),
{
    let v = chars_of(s.as_str());
    let r = v.len() == 9 && v[0] == '-' && v[1] == '-' && v[2] == 'p' && v[3] == 'a' && v[4]
        == 'y' && v[5] == 'l' && v[6] == 'o' && v[7] == 'a' && v[8] == 'd';
    if r {
        assert(v@ =~= payload_flag());
    } else {
        assert(v@.len() == 9 ==> v@ != payload_flag() || v@[0] == payload_flag()[0]);
    }
    r
}

/// The argument after the first `--payload` that has one after it; `MissingArgment`
/// where no `--payload` has an argument after it.
pub fn parse_payload_arg(args: &[String]) -> (r: Result<&str, Error>)
    ensures
        match r {
            Ok(p) => exists|i: int|
                {
                    &&& 0 <= i < args@.len() - 1
                    &&& #[trigger] args@[i]@ == payload_flag()
                    &&& forall|j: int| 0 <= j < i ==> #[trigger] args@[j]@ != payload_flag()
                    &&& p@ == args@[i + 1]@
                },
            Err(e) => {
                &&& e is MissingArgment
                &&& forall|i: int| 0 <= i < args@.len() - 1 ==> #[trigger] args@[i]@ != payload_flag()
            },
        },
{
    let mut i: usize = 0;
    while args.len() > 0 && i < args.len() - 1
        invariant
            forall|j: int| 0 <= j < i ==> #[trigger] args@[j]@ != payload_flag(),
        decreases args.len() - i,
    {
        if is_payload_flag(&args[i]) {
            return Ok(args[i + 1].as_str());
        }
        i = i + 1;
    }
    Err(Error::MissingArgment)
}

/// The text of a decoded payload: its bytes must be UTF-8.
pub fn payload_text(bytes: Vec<u8>) -> (r: Result<String, Error>)
    ensures
        r is Ok <==> valid_utf8(bytes@),
        r matches Ok(s) ==> s@ == decode_utf8(bytes@),
        r matches Err(e) ==> e is PayloadNotUtf8,
{
    match str_from_utf8(bytes.as_slice()) {
        Some(s) => Ok(s.to_owned()),
        None => Err(Error::PayloadNotUtf8),
    }
}

/// The hexadecimal digit `d` (0 to 15), as the byte that spells it: `a` to `f`, or
/// `A` to `F` where `upper` is set, for the digits above 9.
pub open spec fn hex_digit_byte(d: int, upper: bool) -> u8 {
    if d < 10 {
        (0x30 + d) as u8
    } else if upper {
        (0x41 + d - 10) as u8
    } else {
        (0x61 + d - 10) as u8
    }
}

/// The hex text of `b`, as the web UI sends a payload: two hexadecimal digits per
/// byte, the high one first, in upper case where `upper` is set and else in lower
/// case.
pub open spec fn hex_text(b: Seq<u8>, upper: bool) -> Seq<u8>
    decreases b.len(),
{
    if b.len() == 0 {
        Seq::empty()
    } else {
        hex_text(b.drop_last(), upper) + seq![
            hex_digit_byte((b.last() / 16) as int, upper),
            hex_digit_byte((b.last() % 16) as int, upper),
        ]
    }
}

proof fn lemma_hex_text_pairs(b: Seq<u8>, upper: bool)
    ensures
        hex_text(b, upper).len() == 2 * b.len(),
        forall|k: int|
            0 <= k < b.len() ==> #[trigger] hex_pair(hex_text(b, upper), k) == seq![
                hex_digit_byte((b[k] / 16) as int, upper),
                hex_digit_byte((b[k] % 16) as int, upper),
            ],
    decreases b.len(),
{
    if b.len() > 0 {
        let p = b.drop_last();
        lemma_hex_text_pairs(p, upper);
        let t = hex_text(b, upper);
        assert forall|k: int| 0 <= k < b.len() implies #[trigger] hex_pair(t, k) == seq![
            hex_digit_byte((b[k] / 16) as int, upper),
            hex_digit_byte((b[k] % 16) as int, upper),
        ] by {
            if k < p.len() {
                assert(hex_pair(t, k) =~= hex_pair(hex_text(p, upper), k));
                assert(p[k] == b[k]);
            } else {
                assert(hex_pair(t, k) =~= seq![
                    hex_digit_byte((b.last() / 16) as int, upper),
                    hex_digit_byte((b.last() % 16) as int, upper),
                ]);
            }
        }
    }
}

proof fn lemma_ascii_byte(x: u8)
    requires
        x < 0x80,
    ensures
        (x & 0x7f) == x,
{
    assert((x & 0x7f) == x) by (bit_vector)
        requires
            x < 0x80,
    ;
}

/// Two ASCII bytes are UTF-8 and spell the two characters of their codes.
proof fn lemma_ascii_pair_utf8(x: u8, y: u8)
    requires
        x < 0x80,
        y < 0x80,
    ensures
        valid_utf8(seq![x, y]),
        decode_utf8(seq![x, y]) == seq![x as char, y as char],
{
    lemma_ascii_byte(x);
    lemma_ascii_byte(y);
    let e = Seq::<u8>::empty();
    assert(valid_utf8(e));
    assert(decode_utf8(e) =~= Seq::<char>::empty());
    let sy = seq![y];
    assert(vstd::utf8::valid_first_scalar(sy));
    assert(vstd::utf8::pop_first_scalar(sy) =~= e);
    assert(valid_utf8(sy));
    assert(vstd::utf8::decode_first_scalar(sy) == y as u32);
    assert(decode_utf8(sy) =~= seq![y as char]);
    let s = seq![x, y];
    assert(vstd::utf8::valid_first_scalar(s));
    assert(vstd::utf8::pop_first_scalar(s) =~= sy);
    assert(valid_utf8(s));
    assert(vstd::utf8::decode_first_scalar(s) == x as u32);
    assert(decode_utf8(s) =~= seq![x as char, y as char]);
}

proof fn lemma_hex_digit_byte(d: int, upper: bool)
    requires
        0 <= d < 16,
    ensures
        hex_digit_byte(d, upper) < 0x80,
        hex_digit_byte(d, upper) != 0x2b,
        hex_digit_value(hex_digit_byte(d, upper) as char) == Some(d),
{
}

/// The hex text of any bytes, in upper or in lower case, decodes back to them: each
/// two-byte chunk of it is UTF-8 and gives the byte that it was written from, so that
/// `decode_hex` gives back the bytes.
pub proof fn law_hex_text_decodes(b: Seq<u8>, upper: bool)
    ensures
        hex_text(b, upper).len() == 2 * b.len(),
        forall|k: int|
            0 <= k < b.len() ==> hex_pair_byte(#[trigger] hex_pair(hex_text(b, upper), k)) == Some(
                b[k],
            ),
{
    lemma_hex_text_pairs(b, upper);
    assert forall|k: int| 0 <= k < b.len() implies hex_pair_byte(
        #[trigger] hex_pair(hex_text(b, upper), k),
    ) == Some(b[k]) by {
        let hi = b[k] / 16;
        let lo = b[k] % 16;
        let x = hex_digit_byte(hi as int, upper);
        let y = hex_digit_byte(lo as int, upper);
        lemma_hex_digit_byte(hi as int, upper);
        lemma_hex_digit_byte(lo as int, upper);
        lemma_ascii_pair_utf8(x, y);
        let cs = seq![x as char, y as char];
        assert(cs.drop_last() =~= seq![x as char]);
        assert(seq![x as char].drop_last() =~= Seq::<char>::empty());
        assert(hex_digits_value(Seq::<char>::empty()) == Some(0int));
        assert(seq![x as char].last() == x as char);
        assert(hex_digits_value(seq![x as char]) == Some(hi as int));
        assert(hex_digits_value(cs) == Some(hi * 16 + lo));
        assert(u8_from_hex(cs) == Some(b[k]));
    }
}

/// The ignore list and mounts that a custom list with the text `current` has after a
/// save: each list that the save gives replaces the current one.
pub open spec fn saved_lists(
    ignore_list: Option<Vec<String>>,
    custom_mounts: Option<Vec<ApiCustomMount>>,
    current: Seq<char>,
) -> (Seq<Seq<char>>, Seq<(Seq<char>, Seq<char>)>) {
    (
        match ignore_list {
            Some(v) => strings_view(v@),
            None => ignored_sources(crate::parser::custom_list_commands(current)),
        },
        match custom_mounts {
            Some(v) => mounts_view(v@),
            None => mounted_pairs(crate::parser::custom_list_commands(current)),
        },
    )
}

/// The new text of the custom list whose text is `current`, after a save that gives
/// `ignore_list` or `custom_mounts`; none where the save gives neither, so that the
/// custom list stays as it is.
pub fn custom_list_update(
    ignore_list: Option<Vec<String>>,
    custom_mounts: Option<Vec<ApiCustomMount>>,
    current: &str,
) -> (r: Option<String>)
    ensures
        (ignore_list is None && custom_mounts is None) ==> r is None,
        !(ignore_list is None && custom_mounts is None) ==> r is Some && r->0@ == custom_list_text(
            saved_lists(ignore_list, custom_mounts, current@).0,
            saved_lists(ignore_list, custom_mounts, current@).1,
        ),
{
    if ignore_list.is_none() && custom_mounts.is_none() {
        return None;
    }
    let (current_ignore, current_mounts) = Config::read_custom_lists(current);
    let ignores = match ignore_list {
        Some(v) => v,
        None => current_ignore,
    };
    let mounts = match custom_mounts {
        Some(v) => v,
        None => current_mounts,
    };
    Some(custom_list_content(&ignores, &mounts))
}

/// Applying the same payload twice is applying it once.
pub proof fn law_apply_payload_idempotent(c: Config, p: ApiConfigPayload)
    ensures
        applied(applied(c, p), p) == applied(c, p),
{
}

/// A payload that holds no field leaves the configuration as it is.
pub proof fn law_empty_payload_keeps_config(c: Config, p: ApiConfigPayload)
    requires
        p.mountsource is None,
        p.partitions is None,
        p.umount is None,
        p.disable_umount is None,
    ensures
        applied(c, p) == c,
{
}

/// A field that the payload does not set keeps its value, whatever the payload's other
/// fields hold: the mount source without `mountsource`, the partitions without
/// `partitions`, and `umount` without both `umount` and `disable_umount`.
pub proof fn law_payload_keeps_unset_fields(c: Config, p: ApiConfigPayload)
    ensures
        p.mountsource is None ==> applied(c, p).mountsource == c.mountsource,
        p.partitions is None ==> applied(c, p).partitions == c.partitions,
        p.umount is None && p.disable_umount is None ==> applied(c, p).umount == c.umount,
        p.umount is None ==> (p.disable_umount matches Some(d) ==> applied(c, p).umount == !d),
{
}

/// After a payload is applied, the configuration holds what the payload set: its mount
/// source, its partitions, and its `umount`, or else the negation of its
/// `disable_umount`; the web UI's `disable_umount` is then the negation of `umount`.
pub proof fn law_payload_read_back(c: Config, p: ApiConfigPayload)
    ensures
        p.mountsource matches Some(m) ==> applied(c, p).mountsource == m,
        p.partitions matches Some(v) ==> applied(c, p).partitions == v,
        p.umount matches Some(u) ==> applied(c, p).umount == u,
        p.umount is None && p.disable_umount is Some ==> applied(c, p).umount == !p.disable_umount->0,
{
}

} // verus!
