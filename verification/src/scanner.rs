use java_properties::PropertiesError;
use vstd::prelude::*;

use crate::text::{chars_of, string_of};
use crate::utils::validate_module_id;
use crate::utils::module_id_shape;

verus! {

/// The error type of `java_properties`.
#[verifier::external_type_specification]
#[verifier::external_body]
pub struct ExPropertiesError(PropertiesError);

/// A module that `magic_mount` will mount.
#[derive(Debug, Clone)]
pub struct ModuleInfo {
    pub id: String,
    pub name: String,
    pub version: String,
    pub author: String,
    pub description: String,
    pub disabled: bool,
    pub skip: bool,
}

/// What a `ModuleInfo` says, with its texts as character sequences.
pub struct ModuleInfoModel {
    pub id: Seq<char>,
    pub name: Seq<char>,
    pub version: Seq<char>,
    pub author: Seq<char>,
    pub description: Seq<char>,
    pub disabled: bool,
    pub skip: bool,
}

impl View for ModuleInfo {
    type V = ModuleInfoModel;

    open spec fn view(&self) -> ModuleInfoModel {
        ModuleInfoModel {
            id: self.id@,
            name: self.name@,
            version: self.version@,
            author: self.author@,
            description: self.description@,
            disabled: self.disabled,
            skip: self.skip,
        }
    }
}

/// What a look into one entry of the module directory found.
pub struct ModuleEntry {
    /// The entry is a directory.
    pub is_dir: bool,
    /// The directory holds `module.prop`.
    pub has_module_prop: bool,
    /// Names of partitions that are directories in the module (each one that is
    /// asked for, see `module_partitions`).
    pub partition_dirs: Vec<String>,
    /// The directory holds `disable`.
    pub has_disable: bool,
    /// The directory holds `remove`.
    pub has_remove: bool,
    /// The directory holds `skip_mount`.
    pub has_skip_mount: bool,
    /// The text of `module.prop`, where it could be read.
    pub module_prop: Option<String>,
}

/// `system`, the partition that every module may change.
pub open spec fn system_partition() -> Seq<char> {
    seq!['s', 'y', 's', 't', 'e', 'm']
}

/// Whether `p` is one of the partitions a module may change: `system` or one of `extra`.
pub open spec fn is_module_partition(p: Seq<char>, extra: Seq<String>) -> bool {
    p == system_partition() || exists|i: int| 0 <= i < extra.len() && #[trigger] extra[i]@ == p
}

/// Whether the module has a `system` directory: `system` is one of its partition
/// directories.
pub open spec fn has_system_dir(e: ModuleEntry) -> bool {
    exists|i: int| 0 <= i < e.partition_dirs@.len() && #[trigger] e.partition_dirs@[i]@ == system_partition()
}

/// Whether an entry passes the checks that come before its `module.prop` is read:
/// a directory with a `module.prop` and a `system` directory that is neither disabled,
/// removed nor marked to be skipped.
pub open spec fn entry_is_candidate(e: ModuleEntry) -> bool {
    &&& e.is_dir
    &&& e.has_module_prop
    &&& has_system_dir(e)
    &&& !(e.has_disable || e.has_remove)
    &&& !e.has_skip_mount
}

/// The key/value pairs, in order, that `java_properties` reads from a file with the
/// text `text` in UTF-8; none where it refuses the text.
pub uninterp spec fn java_properties_pairs(text: Seq<char>) -> Option<Seq<(Seq<char>, Seq<char>)>>;

/// The views of key/value pairs.
pub open spec fn pairs_view(v: Seq<(String, String)>) -> Seq<(Seq<char>, Seq<char>)> {
    v.map_values(|p: (String, String)| (p.0@, p.1@))
}

/// Records one key/value pair.
pub fn record_pair(pairs: &mut Vec<(String, String)>, key: String, value: String)
    ensures
        final(pairs)@ == old(pairs)@.push((key, value)),
{
    pairs.push((key, value));
}

/// `java_properties::PropertiesIter::read_into` on the UTF-8 text `text`: the key/value
/// pairs in the order in which it reads them, or its error.
#[verifier::external_body]
fn read_properties(text: &str) -> (r: Result<Vec<(String, String)>, PropertiesError>)
    ensures
        match r {
            Ok(v) => java_properties_pairs(text@) == Some(pairs_view(v@)),
            Err(_) => java_properties_pairs(text@) is None,
        },
{
    let mut pairs: Vec<(String, String)> = Vec::new();
    let mut iter = java_properties::PropertiesIter::new_with_encoding(
        std::io::Cursor::new(text.as_bytes()),
        encoding_rs::UTF_8,
    );
    match iter.read_into(|k, v| record_pair(&mut pairs, k, v)) {
        Ok(()) => Ok(pairs),
        Err(e) => Err(e),
    }
}

/// The value of the last pair with key `key`, as a map filled pair by pair holds it.
pub open spec fn prop_value(pairs: Seq<(Seq<char>, Seq<char>)>, key: Seq<char>) -> Option<
    Seq<char>,
>
    decreases pairs.len(),
{
    if pairs.len() == 0 {
        None
    } else if pairs.last().0 == key {
        Some(pairs.last().1)
    } else {
        prop_value(pairs.drop_last(), key)
    }
}

fn prop_value_exec(pairs: &Vec<(String, String)>, key: &Vec<char>) -> (r: Option<String>)
    ensures
        match r {
            Some(v) => prop_value(pairs_view(pairs@), key@) == Some(v@),
            None => prop_value(pairs_view(pairs@), key@) is None,
        },
{
    let mut i = pairs.len();
    assert(pairs@.take(i as int) =~= pairs@);
    while i > 0
        invariant
            i <= pairs.len(),
            prop_value(pairs_view(pairs@), key@) == prop_value(pairs_view(pairs@.take(i as int)), key@),
        decreases i,
    {
        let k = chars_of(pairs[i - 1].0.as_str());
        proof {
            let pv = pairs_view(pairs@.take(i as int));
            assert(pv.drop_last() =~= pairs_view(pairs@.take(i - 1)));
            assert(pv.last() == (pairs@[i - 1].0@, pairs@[i - 1].1@));
        }
        if chars_eq(&k, key) {
            return Some(pairs[i - 1].1.clone());
        }
        i = i - 1;
    }
    assert(pairs_view(pairs@.take(0)) =~= Seq::<(Seq<char>, Seq<char>)>::empty());
    None
}

/// Whether two character sequences are equal.
pub fn chars_eq(a: &Vec<char>, b: &Vec<char>) -> (r: bool)
    ensures
        r == (a@ == b@),
{
    if a.len() != b.len() {
        return false;
    }
    let mut i: usize = 0;
    while i < a.len()
        invariant
            a.len() == b.len(),
            i <= a.len(),
            forall|k: int| 0 <= k < i ==> a@[k] == b@[k],
        decreases a.len() - i,
    {
        if a[i] != b[i] {
            return false;
        }
        i = i + 1;
    }
    assert(a@ =~= b@);
    true
}

/// `version` with a leading `v` or `V` dropped where a digit follows it.
pub open spec fn normalized_version(version: Seq<char>) -> Seq<char> {
    if version.len() >= 2 && (version[0] == 'v' || version[0] == 'V') && ('0' <= version[1]
        && version[1] <= '9') {
        version.drop_first()
    } else {
        version
    }
}

/// Drops a leading `v` or `V` from a version where a digit follows it.
pub fn normalize_version(version: &str) -> (r: String)
    ensures
        r@ == normalized_version(version@),
{
    let t = chars_of(version);
    if t.len() >= 2 && (t[0] == 'v' || t[0] == 'V') && ('0' <= t[1] && t[1] <= '9') {
        let r = string_of(&t, 1, t.len());
        assert(r@ =~= t@.drop_first());
        r
    } else {
        let r = string_of(&t, 0, t.len());
        assert(r@ =~= t@);
        r
    }
}

/// The key of the module id in `module.prop`.
pub open spec fn key_id() -> Seq<char> {
    seq!['i', 'd']
}

/// The key of the module's name.
pub open spec fn key_name() -> Seq<char> {
    seq!['n', 'a', 'm', 'e']
}

/// The key of the module's version.
pub open spec fn key_version() -> Seq<char> {
    seq!['v', 'e', 'r', 's', 'i', 'o', 'n']
}

/// The key of the module's author.
pub open spec fn key_author() -> Seq<char> {
    seq!['a', 'u', 't', 'h', 'o', 'r']
}

/// The key of the module's description.
pub open spec fn key_description() -> Seq<char> {
    seq!['d', 'e', 's', 'c', 'r', 'i', 'p', 't', 'i', 'o', 'n']
}

/// The module that the pairs of a `module.prop` describe: it needs an `id`, a `name`,
/// a `version`, an `author` and a `description`, and its id must have the shape of
/// one.  The version loses a leading `v` before a digit.
pub open spec fn module_info_model(pairs: Seq<(Seq<char>, Seq<char>)>) -> Option<ModuleInfoModel> {
    match (
        prop_value(pairs, key_id()),
        prop_value(pairs, key_name()),
        prop_value(pairs, key_version()),
        prop_value(pairs, key_author()),
        prop_value(pairs, key_description()),
    ) {
        (Some(id), Some(name), Some(version), Some(author), Some(description)) => if module_id_shape(
            id,
        ) {
            Some(
                ModuleInfoModel {
                    id,
                    name,
                    version: normalized_version(version),
                    author,
                    description,
                    disabled: false,
                    skip: false,
                },
            )
        } else {
            None
        },
        _ => None,
    }
}

/// The module that the key/value pairs of a `module.prop` describe, if they describe
/// one whose id has the shape of one.
pub fn module_info_from_pairs(pairs: &Vec<(String, String)>) -> (r: Option<ModuleInfo>)
    ensures
        match r {
            Some(m) => module_info_model(pairs_view(pairs@)) == Some(m@),
            None => module_info_model(pairs_view(pairs@)) is None,
        },
{
    proof {
        reveal_strlit("id");
        reveal_strlit("name");
        reveal_strlit("version");
        reveal_strlit("author");
        reveal_strlit("description");
    }
    let k_id = chars_of("id");
    let k_name = chars_of("name");
    let k_version = chars_of("version");
    let k_author = chars_of("author");
    let k_description = chars_of("description");
    assert(k_id@ =~= key_id());
    assert(k_name@ =~= key_name());
    assert(k_version@ =~= key_version());
    assert(k_author@ =~= key_author());
    assert(k_description@ =~= key_description());
    let id = match prop_value_exec(pairs, &k_id) {
        Some(v) => v,
        None => return None,
    };
    let name = match prop_value_exec(pairs, &k_name) {
        Some(v) => v,
        None => return None,
    };
    let version = match prop_value_exec(pairs, &k_version) {
        Some(v) => v,
        None => return None,
    };
    let author = match prop_value_exec(pairs, &k_author) {
        Some(v) => v,
        None => return None,
    };
    let description = match prop_value_exec(pairs, &k_description) {
        Some(v) => v,
        None => return None,
    };
    if validate_module_id(id.as_str()).is_ok() {
        Some(
            ModuleInfo {
                id,
                name,
                version: normalize_version(version.as_str()),
                author,
                description,
                disabled: false,
                skip: false,
            },
        )
    } else {
        None
    }
}

/// Whether `v` is the value of the last pair of `pairs` whose key is `key`.
pub open spec fn last_value_of(pairs: Seq<(Seq<char>, Seq<char>)>, key: Seq<char>, v: Seq<char>) -> bool {
    exists|i: int|
        0 <= i < pairs.len() && #[trigger] pairs[i] == (key, v) && forall|j: int|
            i < j < pairs.len() ==> #[trigger] pairs[j].0 != key
}

proof fn lemma_prop_value_last(pairs: Seq<(Seq<char>, Seq<char>)>, key: Seq<char>)
    ensures
        prop_value(pairs, key) matches Some(v) ==> last_value_of(pairs, key, v),
        prop_value(pairs, key) is None ==> forall|j: int| 0 <= j < pairs.len() ==> #[trigger] pairs[j].0 != key,
    decreases pairs.len(),
{
    if pairs.len() > 0 {
        let t = pairs.drop_last();
        lemma_prop_value_last(t, key);
        let n = pairs.len() - 1;
        if pairs.last().0 == key {
            let v = pairs.last().1;
            assert(pairs[n] == (key, v));
            assert(last_value_of(pairs, key, v));
        } else {
            assert(forall|j: int| 0 <= j < t.len() ==> #[trigger] t[j] == pairs[j]);
            if let Some(v) = prop_value(t, key) {
                let i = choose|i: int|
                    0 <= i < t.len() && #[trigger] t[i] == (key, v) && forall|j: int|
                        i < j < t.len() ==> #[trigger] t[j].0 != key;
                assert(pairs[i] == (key, v));
                assert forall|j: int| i < j < pairs.len() implies #[trigger] pairs[j].0 != key by {
                    if j < n {
                        assert(t[j] == pairs[j]);
                    }
                }
            } else {
                assert forall|j: int| 0 <= j < pairs.len() implies #[trigger] pairs[j].0 != key by {
                    if j < n {
                        assert(t[j] == pairs[j]);
                    }
                }
            }
        }
    }
}

/// A module that the pairs of a `module.prop` describe takes each field from the last
/// pair of that field's key: its id from `id` (which has the shape of a module id), its
/// name from `name`, its author from `author`, its description from `description`, and
/// its version from `version`, less a leading `v` or `V` before a digit; it is neither
/// disabled nor skipped.  The pairs describe a module exactly when they hold the five
/// keys and the id has that shape.
pub proof fn law_module_fields_from_pairs(pairs: Seq<(Seq<char>, Seq<char>)>)
    ensures
        module_info_model(pairs) matches Some(m) ==> {
            &&& last_value_of(pairs, seq!['i', 'd'], m.id)
            &&& module_id_shape(m.id)
            &&& last_value_of(pairs, seq!['n', 'a', 'm', 'e'], m.name)
            &&& last_value_of(pairs, seq!['a', 'u', 't', 'h', 'o', 'r'], m.author)
            &&& last_value_of(
                pairs,
                seq!['d', 'e', 's', 'c', 'r', 'i', 'p', 't', 'i', 'o', 'n'],
                m.description,
            )
            &&& exists|v: Seq<char>|
                {
                    &&& #[trigger] last_value_of(pairs, key_version(), v)
                    &&& if v.len() >= 2 && (v[0] == 'v' || v[0] == 'V') && '0' <= v[1] <= '9' {
                        m.version == v.drop_first()
                    } else {
                        m.version == v
                    }
                }
            &&& !m.disabled
            &&& !m.skip
        },
        module_info_model(pairs) is None ==> {
            ||| forall|j: int| 0 <= j < pairs.len() ==> #[trigger] pairs[j].0 != seq!['i', 'd']
            ||| forall|j: int| 0 <= j < pairs.len() ==> #[trigger] pairs[j].0 != seq!['n', 'a', 'm', 'e']
            ||| forall|j: int|
                0 <= j < pairs.len() ==> #[trigger] pairs[j].0 != seq!['v', 'e', 'r', 's', 'i', 'o', 'n']
            ||| forall|j: int|
                0 <= j < pairs.len() ==> #[trigger] pairs[j].0 != seq!['a', 'u', 't', 'h', 'o', 'r']
            ||| forall|j: int|
                0 <= j < pairs.len() ==> #[trigger] pairs[j].0 != seq![
                    'd', 'e', 's', 'c', 'r', 'i', 'p', 't', 'i', 'o', 'n'
                ]
            ||| exists|id: Seq<char>| #[trigger] last_value_of(pairs, key_id(), id) && !module_id_shape(id)
        },
        key_id() == seq!['i', 'd'],
        key_version() == seq!['v', 'e', 'r', 's', 'i', 'o', 'n'],
{
    lemma_prop_value_last(pairs, key_id());
    lemma_prop_value_last(pairs, key_name());
    lemma_prop_value_last(pairs, key_version());
    lemma_prop_value_last(pairs, key_author());
    lemma_prop_value_last(pairs, key_description());
    assert(key_id() == seq!['i', 'd']);
    assert(key_name() == seq!['n', 'a', 'm', 'e']);
    assert(key_version() == seq!['v', 'e', 'r', 's', 'i', 'o', 'n']);
    assert(key_author() == seq!['a', 'u', 't', 'h', 'o', 'r']);
    assert(key_description() == seq!['d', 'e', 's', 'c', 'r', 'i', 'p', 't', 'i', 'o', 'n']);
    if let Some(m) = module_info_model(pairs) {
        let v = prop_value(pairs, key_version())->0;
        assert(last_value_of(pairs, key_version(), v));
    }
}

/// A module that the scan reports for an entry comes from a directory with a
/// `module.prop` and a `system` directory, neither disabled, removed nor marked to be
/// skipped, whose `module.prop` text `java-properties` reads; its fields are those that
/// `law_module_fields_from_pairs` gives for the pairs read.
pub proof fn law_scanned_module_source(e: ModuleEntry)
    ensures
        module_of_entry(e) matches Some(m) ==> {
            &&& e.is_dir
            &&& e.has_module_prop
            &&& exists|i: int|
                0 <= i < e.partition_dirs@.len() && #[trigger] e.partition_dirs@[i]@ == seq![
                    's', 'y', 's', 't', 'e', 'm'
                ]
            &&& !e.has_disable
            &&& !e.has_remove
            &&& !e.has_skip_mount
            &&& e.module_prop matches Some(text) && java_properties_pairs(text@) matches Some(pairs)
                && module_info_model(pairs) == Some(m)
        },
{
}

/// Lexicographic order on character sequences, by the characters' scalar values;
/// the order of `String`'s `Ord`, whose byte-wise UTF-8 comparison agrees with it.
pub open spec fn lex_le(a: Seq<char>, b: Seq<char>) -> bool
    decreases a.len(),
{
    if a.len() == 0 {
        true
    } else if b.len() == 0 {
        false
    } else if a[0] < b[0] {
        true
    } else if a[0] == b[0] {
        lex_le(a.drop_first(), b.drop_first())
    } else {
        false
    }
}

/// Any two sequences are ordered one way or the other.
pub proof fn lemma_lex_le_total(a: Seq<char>, b: Seq<char>)
    ensures
        lex_le(a, b) || lex_le(b, a),
    decreases a.len(),
{
    if a.len() > 0 && b.len() > 0 && a[0] == b[0] {
        lemma_lex_le_total(a.drop_first(), b.drop_first());
    }
}

/// The order is transitive.
pub proof fn lemma_lex_le_trans(a: Seq<char>, b: Seq<char>, c: Seq<char>)
    requires
        lex_le(a, b),
        lex_le(b, c),
    ensures
        lex_le(a, c),
    decreases a.len(),
{
    if a.len() > 0 && b.len() > 0 && c.len() > 0 && a[0] == b[0] && b[0] == c[0] {
        lemma_lex_le_trans(a.drop_first(), b.drop_first(), c.drop_first());
    }
}

/// Every sequence is ordered before itself.
pub proof fn lemma_lex_le_refl(a: Seq<char>)
    ensures
        lex_le(a, a),
    decreases a.len(),
{
    if a.len() > 0 {
        lemma_lex_le_refl(a.drop_first());
    }
}

/// Whether `a` comes before `b` or equals it.
pub fn lex_le_exec(a: &Vec<char>, b: &Vec<char>) -> (r: bool)
    ensures
        r == lex_le(a@, b@),
{
    let mut i: usize = 0;
    assert(a@.skip(0) =~= a@);
    assert(b@.skip(0) =~= b@);
    while i < a.len() && i < b.len() && a[i] == b[i]
        invariant
            i <= a.len(),
            i <= b.len(),
            lex_le(a@, b@) == lex_le(a@.skip(i as int), b@.skip(i as int)),
        decreases a.len() - i,
    {
        assert(a@.skip(i as int).drop_first() =~= a@.skip(i + 1));
        assert(b@.skip(i as int).drop_first() =~= b@.skip(i + 1));
        i = i + 1;
    }
    if i == a.len() {
        true
    } else if i == b.len() {
        false
    } else {
        a[i] < b[i]
    }
}

/// The views of a sequence of modules.
pub open spec fn modules_view(v: Seq<ModuleInfo>) -> Seq<ModuleInfoModel> {
    v.map_values(|m: ModuleInfo| m@)
}

/// Whether the modules are in order of their ids.
pub open spec fn sorted_by_id(s: Seq<ModuleInfoModel>) -> bool {
    forall|i: int, j: int| 0 <= i < j < s.len() ==> lex_le(#[trigger] s[i].id, #[trigger] s[j].id)
}

/// The modules of `s` with the id `id`, in order.
pub open spec fn with_id(s: Seq<ModuleInfoModel>, id: Seq<char>) -> Seq<ModuleInfoModel> {
    s.filter(|m: ModuleInfoModel| m.id == id)
}

proof fn lemma_with_id_none(s: Seq<ModuleInfoModel>, id: Seq<char>)
    requires
        forall|i: int| 0 <= i < s.len() ==> #[trigger] s[i].id != id,
    ensures
        with_id(s, id) == Seq::<ModuleInfoModel>::empty(),
    decreases s.len(),
{
    reveal(Seq::filter);
    if s.len() > 0 {
        lemma_with_id_none(s.drop_last(), id);
    }
}

proof fn lemma_with_id_single(x: ModuleInfoModel, id: Seq<char>)
    ensures
        with_id(seq![x], id) == (if x.id == id {
            seq![x]
        } else {
            Seq::<ModuleInfoModel>::empty()
        }),
{
    reveal_with_fuel(Seq::filter, 2);
    assert(seq![x].drop_last() =~= Seq::<ModuleInfoModel>::empty());
    assert(Seq::<ModuleInfoModel>::empty().push(x) =~= seq![x]);
}

/// The order is antisymmetric.
pub proof fn lemma_lex_le_antisym(a: Seq<char>, b: Seq<char>)
    requires
        lex_le(a, b),
        lex_le(b, a),
    ensures
        a == b,
    decreases a.len(),
{
    if a.len() > 0 && b.len() > 0 {
        lemma_lex_le_antisym(a.drop_first(), b.drop_first());
        assert(a =~= seq![a[0]] + a.drop_first());
        assert(b =~= seq![b[0]] + b.drop_first());
    }
}

proof fn lemma_with_id_push(s: Seq<ModuleInfoModel>, x: ModuleInfoModel, id: Seq<char>)
    ensures
        with_id(s.push(x), id) == (if x.id == id {
            with_id(s, id).push(x)
        } else {
            with_id(s, id)
        }),
{
    reveal(Seq::filter);
    assert(s.push(x).drop_last() =~= s);
}

proof fn lemma_with_id_found(s: Seq<ModuleInfoModel>, id: Seq<char>)
    requires
        with_id(s, id).len() > 0,
    ensures
        exists|p: int| 0 <= p < s.len() && #[trigger] s[p].id == id,
    decreases s.len(),
{
    if s.len() == 0 {
        reveal(Seq::filter);
    } else {
        let t = s.drop_last();
        assert(t.push(s.last()) =~= s);
        lemma_with_id_push(t, s.last(), id);
        if s.last().id == id {
            assert(s[s.len() - 1].id == id);
        } else {
            lemma_with_id_found(t, id);
            let p = choose|p: int| 0 <= p < t.len() && #[trigger] t[p].id == id;
            assert(s[p] == t[p]);
        }
    }
}

/// A sequence of modules in order of their ids is determined by which modules of each
/// id it holds and in what order: two such sequences that agree on that are equal.  So
/// `scan_modules` gives one result for given entries, whatever further partitions it is
/// told of.
pub proof fn law_sorted_by_id_is_determined(a: Seq<ModuleInfoModel>, b: Seq<ModuleInfoModel>)
    requires
        sorted_by_id(a),
        sorted_by_id(b),
        forall|id: Seq<char>| #[trigger] with_id(a, id) == with_id(b, id),
    ensures
        a == b,
    decreases a.len() + b.len(),
{
    if a.len() == 0 && b.len() == 0 {
        assert(a =~= b);
    } else if a.len() == 0 || b.len() == 0 {
        let (s, t) = if a.len() == 0 { (b, a) } else { (a, b) };
        let x = s.last();
        assert(s.drop_last().push(x) =~= s);
        lemma_with_id_push(s.drop_last(), x, x.id);
        assert(with_id(s, x.id) == with_id(t, x.id));
        reveal(Seq::filter);
        assert(t =~= Seq::<ModuleInfoModel>::empty());
        assert(with_id(t, x.id).len() == 0);
    } else {
        let x = a.last();
        let y = b.last();
        let a0 = a.drop_last();
        let b0 = b.drop_last();
        assert(a0.push(x) =~= a);
        assert(b0.push(y) =~= b);
        lemma_with_id_push(a0, x, x.id);
        lemma_with_id_push(b0, y, y.id);
        assert(with_id(a, x.id) == with_id(b, x.id));
        assert(with_id(a, y.id) == with_id(b, y.id));
        lemma_with_id_found(b, x.id);
        lemma_with_id_found(a, y.id);
        let p = choose|p: int| 0 <= p < b.len() && #[trigger] b[p].id == x.id;
        let q = choose|q: int| 0 <= q < a.len() && #[trigger] a[q].id == y.id;
        if p < b.len() - 1 {
            assert(lex_le(b[p].id, b[b.len() - 1].id));
        } else {
            lemma_lex_le_refl(x.id);
        }
        if q < a.len() - 1 {
            assert(lex_le(a[q].id, a[a.len() - 1].id));
        } else {
            lemma_lex_le_refl(y.id);
        }
        lemma_lex_le_antisym(x.id, y.id);
        let d = x.id;
        assert(with_id(a, d) == with_id(a0, d).push(x));
        assert(with_id(b, d) == with_id(b0, d).push(y));
        assert(with_id(a0, d).push(x).last() == x);
        assert(x == y);
        assert(with_id(a0, d) =~= with_id(a0, d).push(x).drop_last());
        assert(with_id(b0, d) =~= with_id(b0, d).push(y).drop_last());
        assert forall|id: Seq<char>| #[trigger] with_id(a0, id) == with_id(b0, id) by {
            lemma_with_id_push(a0, x, id);
            lemma_with_id_push(b0, y, id);
            if id == d {
                assert(with_id(a0, id) =~= with_id(a, id).drop_last());
                assert(with_id(b0, id) =~= with_id(b, id).drop_last());
            } else {
                assert(with_id(a0, id) == with_id(a, id));
            }
        }
        assert forall|i: int, j: int| 0 <= i < j < a0.len() implies lex_le(#[trigger] a0[i].id, #[trigger] a0[j].id) by {
            assert(a0[i] == a[i] && a0[j] == a[j]);
        }
        assert forall|i: int, j: int| 0 <= i < j < b0.len() implies lex_le(#[trigger] b0[i].id, #[trigger] b0[j].id) by {
            assert(b0[i] == b[i] && b0[j] == b[j]);
        }
        law_sorted_by_id_is_determined(a0, b0);
    }
}

fn id_le(a: &ModuleInfo, key: &Vec<char>) -> (r: bool)
    ensures
        r == lex_le(a@.id, key@),
{
    let k = chars_of(a.id.as_str());
    lex_le_exec(&k, key)
}

/// Puts `x` into the sorted `out` after every module whose id is not after its own.
fn insert_by_id(out: &mut Vec<ModuleInfo>, x: ModuleInfo)
    requires
        sorted_by_id(modules_view(old(out)@)),
    ensures
        sorted_by_id(modules_view(final(out)@)),
        forall|id: Seq<char>|
            #[trigger] with_id(modules_view(final(out)@), id) == with_id(
                modules_view(old(out)@).push(x@),
                id,
            ),
{
    let ghost v = modules_view(out@);
    let key = chars_of(x.id.as_str());
    let mut j = out.len();
    while j > 0 && !id_le(&out[j - 1], &key)
        invariant
            j <= out.len(),
            v == modules_view(out@),
            key@ == x@.id,
            forall|m: int| j <= m < out.len() ==> !lex_le(#[trigger] v[m].id, x@.id),
        decreases j,
    {
        j = j - 1;
    }
    proof {
        assert forall|m: int| 0 <= m < j implies lex_le(#[trigger] v[m].id, x@.id) by {
            if m < j - 1 {
                lemma_lex_le_trans(v[m].id, v[j - 1].id, x@.id);
            }
        }
        assert forall|m: int| j <= m < v.len() implies lex_le(x@.id, #[trigger] v[m].id) by {
            lemma_lex_le_total(x@.id, v[m].id);
        }
    }
    out.insert(j, x);
    proof {
        let w = modules_view(out@);
        assert(w =~= v.insert(j as int, x@));
        assert(w =~= v.take(j as int) + seq![x@] + v.skip(j as int));
        assert(v =~= v.take(j as int) + v.skip(j as int));
        assert(v.push(x@) =~= v.take(j as int) + v.skip(j as int) + seq![x@]);
        assert forall|id: Seq<char>| #[trigger] with_id(w, id) == with_id(v.push(x@), id) by {
            let a = v.take(j as int);
            let b = v.skip(j as int);
            let f = |m: ModuleInfoModel| m.id == id;
            Seq::filter_distributes_over_add(a + seq![x@], b, f);
            Seq::filter_distributes_over_add(a, seq![x@], f);
            Seq::filter_distributes_over_add(a + b, seq![x@], f);
            Seq::filter_distributes_over_add(a, b, f);
            lemma_with_id_single(x@, id);
            if x@.id == id {
                assert forall|m: int| 0 <= m < b.len() implies #[trigger] b[m].id != id by {
                    lemma_lex_le_refl(x@.id);
                    assert(!lex_le(v[j + m].id, x@.id));
                }
                lemma_with_id_none(b, id);
                assert(with_id(w, id) =~= with_id(a, id) + seq![x@]);
                assert(with_id(v.push(x@), id) =~= with_id(a, id) + seq![x@]);
            } else {
                assert(with_id(w, id) =~= with_id(a, id) + with_id(b, id));
                assert(with_id(v.push(x@), id) =~= with_id(a, id) + with_id(b, id));
            }
        }
        assert forall|p: int, q: int| 0 <= p < q < w.len() implies lex_le(
            #[trigger] w[p].id,
            #[trigger] w[q].id,
        ) by {
            if q < j {
            } else if q == j {
                assert(w[q] == x@);
            } else if p < j {
                assert(w[q] == v[q - 1]);
            } else if p == j {
                assert(w[p] == x@);
                assert(w[q] == v[q - 1]);
            } else {
                assert(w[p] == v[p - 1]);
                assert(w[q] == v[q - 1]);
            }
        }
    }
}

/// The modules `found`, put in order of their ids; modules with the same id keep the
/// order they had (as `sort_by` on the ids does).
pub fn sort_by_id(found: Vec<ModuleInfo>) -> (r: Vec<ModuleInfo>)
    ensures
        sorted_by_id(modules_view(r@)),
        forall|id: Seq<char>|
            #[trigger] with_id(modules_view(r@), id) == with_id(modules_view(found@), id),
{
    let mut out: Vec<ModuleInfo> = Vec::new();
    let mut rest = found;
    let ghost all = modules_view(rest@);
    let ghost mut i: int = 0;
    proof {
        assert(modules_view(out@) =~= all.take(0));
        assert(modules_view(rest@) =~= all.skip(0));
    }
    while rest.len() > 0
        invariant
            0 <= i <= all.len(),
            modules_view(rest@) == all.skip(i),
            sorted_by_id(modules_view(out@)),
            forall|id: Seq<char>|
                #[trigger] with_id(modules_view(out@), id) == with_id(all.take(i), id),
        decreases rest.len(),
    {
        let ghost before = rest@;
        assert(modules_view(before).len() == before.len());
        assert(modules_view(before)[0] == before[0]@);
        assert(all.skip(i)[0] == all[i]);
        let x = rest.remove(0);
        proof {
            assert(x@ == all[i]);
            assert(rest@ =~= before.skip(1));
            assert forall|k: int| 0 <= k < rest@.len() implies #[trigger] modules_view(rest@)[k] == all.skip(i + 1)[k] by {
                assert(rest@[k] == before[k + 1]);
                assert(modules_view(before)[k + 1] == before[k + 1]@);
                assert(all.skip(i)[k + 1] == all[i + 1 + k]);
            }
            assert(modules_view(rest@) =~= all.skip(i + 1));
            assert(all.take(i + 1) =~= all.take(i).push(x@));
        }
        let ghost old_out = modules_view(out@);
        assert(forall|id: Seq<char>| #[trigger] with_id(old_out, id) == with_id(all.take(i), id));
        insert_by_id(&mut out, x);
        proof {
            assert forall|id: Seq<char>| #[trigger] with_id(modules_view(out@), id) == with_id(all.take(i + 1), id) by {
                let f = |m: ModuleInfoModel| m.id == id;
                Seq::filter_distributes_over_add(old_out, seq![x@], f);
                Seq::filter_distributes_over_add(all.take(i), seq![x@], f);
                assert(old_out.push(x@) =~= old_out + seq![x@]);
                assert(all.take(i).push(x@) =~= all.take(i) + seq![x@]);
                assert(with_id(modules_view(out@), id) == with_id(old_out.push(x@), id));
                assert(with_id(old_out, id) == with_id(all.take(i), id));
            }
            i = i + 1;
        }
    }
    proof {
        assert(all.skip(i).len() == 0);
        assert(all.take(i) =~= all);
    }
    out
}

fn system_name() -> (r: Vec<char>)
    ensures
        r@ == system_partition(),
{
    let r = vec!['s', 'y', 's', 't', 'e', 'm'];
    assert(r@ =~= system_partition());
    r
}

/// The partitions that a module may change: `system`, then each of `extra`.
pub fn module_partitions(extra: &[String]) -> (r: Vec<String>)
    ensures
        r@.len() == extra@.len() + 1,
        r@[0]@ == system_partition(),
        forall|k: int| 0 <= k < extra@.len() ==> #[trigger] r@[k + 1] == extra@[k],
        forall|p: Seq<char>|
            is_module_partition(p, extra@) <==> exists|i: int| 0 <= i < r@.len() && #[trigger] r@[i]@ == p,
{
    let mut r: Vec<String> = Vec::new();
    r.push(crate::text::string_from_chars(&system_name()));
    let mut i: usize = 0;
    while i < extra.len()
        invariant
            i <= extra@.len(),
            r@.len() == i + 1,
            r@[0]@ == system_partition(),
            forall|k: int| 0 <= k < i ==> #[trigger] r@[k + 1] == extra@[k],
        decreases extra.len() - i,
    {
        r.push(extra[i].clone());
        i = i + 1;
    }
    assert forall|p: Seq<char>|
        is_module_partition(p, extra@) implies exists|i: int| 0 <= i < r@.len() && #[trigger] r@[i]@ == p by {
        if p != system_partition() {
            let k = choose|k: int| 0 <= k < extra@.len() && #[trigger] extra@[k]@ == p;
            assert(r@[k + 1]@ == p);
        } else {
            assert(r@[0]@ == p);
        }
    }
    assert forall|p: Seq<char>| (exists|i: int| 0 <= i < r@.len() && #[trigger] r@[i]@ == p) implies is_module_partition(p, extra@) by {
        let i = choose|i: int| 0 <= i < r@.len() && #[trigger] r@[i]@ == p;
        if i > 0 {
            assert(r@[(i - 1) + 1] == extra@[i - 1]);
            assert(extra@[i - 1]@ == p);
        }
    }
    r
}

fn has_system_dir_exec(e: &ModuleEntry) -> (r: bool)
    ensures
        r == has_system_dir(*e),
{
    let sys = system_name();
    let mut i: usize = 0;
    while i < e.partition_dirs.len()
        invariant
            i <= e.partition_dirs@.len(),
            sys@ == system_partition(),
            forall|k: int| 0 <= k < i ==> #[trigger] e.partition_dirs@[k]@ != system_partition(),
        decreases e.partition_dirs.len() - i,
    {
        let pc = chars_of(e.partition_dirs[i].as_str());
        if chars_eq(&pc, &sys) {
            return true;
        }
        i = i + 1;
    }
    false
}

/// The module that an entry of the module directory holds, if `magic_mount` will mount
/// it: it must pass the checks on the entry, and its `module.prop` must be read,
/// parsed and describe a module.
pub open spec fn module_of_entry(e: ModuleEntry) -> Option<ModuleInfoModel> {
    if entry_is_candidate(e) {
        match e.module_prop {
            Some(text) => match java_properties_pairs(text@) {
                Some(pairs) => module_info_model(pairs),
                None => None,
            },
            None => None,
        }
    } else {
        None
    }
}

/// The modules that the entries hold, in the order of the entries.
pub open spec fn found_modules(entries: Seq<ModuleEntry>) -> Seq<ModuleInfoModel> {
    entries.filter_map(|e: ModuleEntry| module_of_entry(e))
}

fn module_of_entry_exec(e: &ModuleEntry) -> (r: Option<ModuleInfo>)
    ensures
        match r {
            Some(m) => module_of_entry(*e) == Some(m@),
            None => module_of_entry(*e) is None,
        },
{
    if !(e.is_dir && e.has_module_prop) {
        return None;
    }
    if !has_system_dir_exec(e) {
        return None;
    }
    if e.has_disable || e.has_remove || e.has_skip_mount {
        return None;
    }
    match &e.module_prop {
        Some(text) => match read_properties(text.as_str()) {
            Ok(pairs) => module_info_from_pairs(&pairs),
            Err(_) => None,
        },
        None => None,
    }
}

/// Scans the entries of the module directory for the modules that `magic_mount` will
/// mount, leaving out those without a `system` directory, those that are disabled or
/// removed, those marked `skip_mount`, and those whose `module.prop` cannot be read or
/// lacks a field or a valid id.  The modules come in order of their ids.  `_extra`
/// names the further partitions that were looked for in each module; a module needs
/// its `system` directory whatever they are, so they leave the result unchanged.
pub fn scan_modules(entries: &Vec<ModuleEntry>, _extra: &[String]) -> (r: Vec<ModuleInfo>)
    ensures
        sorted_by_id(modules_view(r@)),
        forall|id: Seq<char>|
            #[trigger] with_id(modules_view(r@), id) == with_id(found_modules(entries@), id),
{
    let ghost f = |e: ModuleEntry| module_of_entry(e);
    let mut found: Vec<ModuleInfo> = Vec::new();
    let mut i: usize = 0;
    assert(entries@.take(0).filter_map(f) =~= modules_view(found@));
    while i < entries.len()
        invariant
            i <= entries@.len(),
            f == (|e: ModuleEntry| module_of_entry(e)),
            modules_view(found@) == entries@.take(i as int).filter_map(f),
        decreases entries.len() - i,
    {
        let m = module_of_entry_exec(&entries[i]);
        let ghost before = modules_view(found@);
        proof {
            assert(entries@.take(i + 1).drop_last() =~= entries@.take(i as int));
            assert(entries@.take(i + 1).last() == entries@[i as int]);
        }
        match m {
            Some(m) => {
                found.push(m);
                assert(modules_view(found@) =~= before + seq![m@]);
            },
            None => {},
        }
        i = i + 1;
    }
    assert(entries@.take(entries@.len() as int) =~= entries@);
    sort_by_id(found)
}

} // verus!
