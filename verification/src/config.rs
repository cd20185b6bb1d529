//! Settings: which configuration action a command line asks for, how a key
//! is resolved across the repository-local and the global scope, and how the
//! active settings are listed.
use vstd::prelude::*;
use crate::order::{bytes_lt, Named, compare_text, sort_by_name, texts_strictly_sorted, text_lt, TextOrder, lemma_text_lt_order, sorted_by_name};

verus! {

/// Why a configuration command was refused.
#[derive(Debug)]
pub enum ConfigError {
    /// `--verbose` was given without `--all`.
    VerboseWithoutAll,
    /// Neither a key nor `--all` was given.
    MissingKey,
    /// The key has no value in the scopes that were read.
    KeyNotSet { key: String },
    /// The current directory holds no repository.
    NotInRepository,
}

/// What a configuration command does.
#[derive(Debug)]
pub enum ConfigTask {
    /// List the active settings, with shadowed ones when `verbose`.
    List { verbose: bool },
    /// Store `value` under `key`, in the local scope when `local`.
    Write { key: String, value: String, local: bool },
    /// Print the value of `key`: from the local scope only when `local`,
    /// else resolved local first, then global.
    Read { key: String, local: bool },
}

/// What `cntl config` does with its arguments: `--verbose` needs `--all`;
/// `--all` lists; otherwise a key is needed, and with a value it is
/// written, without one it is read.
pub open spec fn config_decision(
    key: Option<String>,
    value: Option<String>,
    local: bool,
    all: bool,
    verbose: bool,
    r: Result<ConfigTask, ConfigError>,
) -> bool {
    if verbose && !all {
        r matches Err(ConfigError::VerboseWithoutAll)
    } else if all {
        r matches Ok(ConfigTask::List { verbose: v }) && v == verbose
    } else if key is None {
        r matches Err(ConfigError::MissingKey)
    } else if value is Some {
        r matches Ok(ConfigTask::Write { key: k, value: v, local: l }) && k == key->0 && v
            == value->0 && l == local
    } else {
        r matches Ok(ConfigTask::Read { key: k, local: l }) && k == key->0 && l == local
    }
}

/// Law: a configuration command writes to, or reads from, exactly the
/// scope that `--local` chose: the repository's with it, otherwise the
/// global one (a read then resolving local first); and a value given with a
/// key is always written, under that key.
pub proof fn config_keeps_scope(
    key: Option<String>,
    value: Option<String>,
    local: bool,
    all: bool,
    verbose: bool,
    r: Result<ConfigTask, ConfigError>,
)
    requires
        config_decision(key, value, local, all, verbose, r),
    ensures
        r matches Ok(ConfigTask::Write { local: l, .. }) ==> l == local,
        r matches Ok(ConfigTask::Read { local: l, .. }) ==> l == local,
        !all && !verbose && key is Some && value is Some ==> (r matches Ok(ConfigTask::Write { key: k, value: v, local: l })
            && k == key->0 && v == value->0 && l == local),
{
}

/// Decides what `cntl config` does with its arguments.
pub fn config(key: Option<String>, value: Option<String>, local: bool, all: bool, verbose: bool) -> (r:
    Result<ConfigTask, ConfigError>)
    ensures
        config_decision(key, value, local, all, verbose, r),
        r matches Ok(ConfigTask::Write { local: l, .. }) ==> l == local,
        r matches Ok(ConfigTask::Read { local: l, .. }) ==> l == local,
{
    if verbose && !all {
        return Err(ConfigError::VerboseWithoutAll);
    }
    if all {
        return Ok(ConfigTask::List { verbose });
    }
    let key = match key {
        Some(k) => k,
        None => return Err(ConfigError::MissingKey),
    };
    match value {
        Some(v) => Ok(ConfigTask::Write { key, value: v, local }),
        None => Ok(ConfigTask::Read { key, local }),
    }
}

/// Resolves a key with the standard local -> global precedence, given the
/// value that each scope holds (`None` where the scope has none, or the
/// repository database does not exist).
pub fn lookup_config(local: Option<String>, global: Option<String>) -> (r: Option<String>)
    ensures
        r == (if local is Some {
            local
        } else {
            global
        }),
{
    match local {
        Some(v) => Some(v),
        None => global,
    }
}

/// The value that `cntl config <key>` prints, or the error when the key is
/// not set.
pub fn read_config(key: &str, value: Option<String>) -> (r: Result<String, ConfigError>)
    ensures
        match value {
            Some(v) => r == Ok::<String, ConfigError>(v),
            None => r matches Err(ConfigError::KeyNotSet { key: k }) && k@ == key@,
        },
{
    match value {
        Some(v) => Ok(v),
        None => Err(ConfigError::KeyNotSet { key: key.to_owned() }),
    }
}

/// Path of the repository database, relative to the working directory.
pub open spec fn repo_db_path() -> Seq<char> {
    ".cntl/repo.db"@
}

/// The repository database path, when the database exists.
pub fn local_db_path_existing(exists: bool) -> (r: Result<String, ConfigError>)
    ensures
        exists ==> (r matches Ok(p) && p@ == repo_db_path()),
        !exists ==> r matches Err(ConfigError::NotInRepository),
{
    if !exists {
        return Err(ConfigError::NotInRepository);
    }
    Ok(".cntl/repo.db".to_owned())
}


/// The value that a list of settings gives `key`: that of the last entry
/// with this key, as when the entries are collected into a map.
pub open spec fn setting_value(entries: Seq<(Seq<char>, Seq<char>)>, key: Seq<char>) -> Option<
    Seq<char>,
>
    decreases entries.len(),
{
    if entries.len() == 0 {
        None
    } else if entries.last().0 == key {
        Some(entries.last().1)
    } else {
        setting_value(entries.drop_last(), key)
    }
}

pub open spec fn entries_view(entries: Seq<(String, String)>) -> Seq<(Seq<char>, Seq<char>)> {
    entries.map_values(|e: (String, String)| (e.0@, e.1@))
}

/// A key that some entry sets.
pub open spec fn has_key(entries: Seq<(Seq<char>, Seq<char>)>, key: Seq<char>) -> bool {
    exists|i: int| 0 <= i < entries.len() && #[trigger] entries[i].0 == key
}

/// The keys of a listing: every key of either scope, once each, in byte
/// order.
pub open spec fn listing_keys(
    keys: Seq<Seq<char>>,
    local: Seq<(Seq<char>, Seq<char>)>,
    global: Seq<(Seq<char>, Seq<char>)>,
) -> bool {
    &&& texts_strictly_sorted(keys)
    &&& forall|k: Seq<char>| keys.contains(k) <==> (has_key(local, k) || has_key(global, k))
}

/// `key(scope) "value"`
pub open spec fn setting_line(key: Seq<char>, local: bool, value: Seq<char>) -> Seq<char> {
    if local {
        key + "(local) \""@ + value + "\""@
    } else {
        key + "(global) \""@ + value + "\""@
    }
}

/// `  shadowed: global = "value"`
pub open spec fn shadowed_line(value: Seq<char>) -> Seq<char> {
    "  shadowed: global = \""@ + value + "\""@
}

/// The lines listed for one key: the effective value with its scope, and,
/// when `verbose`, the global value that a local one shadows.
pub open spec fn key_lines(
    key: Seq<char>,
    local: Seq<(Seq<char>, Seq<char>)>,
    global: Seq<(Seq<char>, Seq<char>)>,
    verbose: bool,
) -> Seq<Seq<char>> {
    match (setting_value(local, key), setting_value(global, key)) {
        (Some(v), Some(g)) => if verbose {
            seq![setting_line(key, true, v), shadowed_line(g)]
        } else {
            seq![setting_line(key, true, v)]
        },
        (Some(v), None) => seq![setting_line(key, true, v)],
        (None, Some(g)) => seq![setting_line(key, false, g)],
        (None, None) => Seq::empty(),
    }
}

/// The lines listed for the given keys, in order.
pub open spec fn listing_lines(
    keys: Seq<Seq<char>>,
    local: Seq<(Seq<char>, Seq<char>)>,
    global: Seq<(Seq<char>, Seq<char>)>,
    verbose: bool,
) -> Seq<Seq<char>>
    decreases keys.len(),
{
    if keys.len() == 0 {
        Seq::empty()
    } else {
        listing_lines(keys.drop_last(), local, global, verbose) + key_lines(
            keys.last(),
            local,
            global,
            verbose,
        )
    }
}

pub open spec fn no_settings_line() -> Seq<char> {
    "no configuration set"@
}

pub open spec fn strings_view(s: Seq<String>) -> Seq<Seq<char>> {
    s.map_values(|x: String| x@)
}

fn find_setting(entries: &Vec<(String, String)>, key: &str) -> (r: Option<String>)
    ensures
        match r {
            Some(v) => setting_value(entries_view(entries@), key@) == Some(v@),
            None => setting_value(entries_view(entries@), key@) is None,
        },
{
    let mut i: usize = entries.len();
    assert(entries@.take(i as int) =~= entries@);
    while i > 0
        invariant
            i <= entries@.len(),
            setting_value(entries_view(entries@), key@) == setting_value(
                entries_view(entries@.take(i as int)),
                key@,
            ),
        decreases i,
    {
        let ghost t = entries_view(entries@.take(i as int));
        assert(t.last() == (entries@[i - 1].0@, entries@[i - 1].1@));
        if compare_text(entries[i - 1].0.as_str(), key) == TextOrder::Equal {
            return Some(entries[i - 1].1.clone());
        }
        assert(t.drop_last() =~= entries_view(entries@.take(i - 1)));
        i = i - 1;
    }
    assert(entries_view(entries@.take(0)) =~= Seq::<(Seq<char>, Seq<char>)>::empty());
    None
}

proof fn lemma_has_key_value(entries: Seq<(Seq<char>, Seq<char>)>, key: Seq<char>)
    ensures
        has_key(entries, key) <==> setting_value(entries, key) is Some,
    decreases entries.len(),
{
    if entries.len() > 0 {
        let init = entries.drop_last();
        lemma_has_key_value(init, key);
        if has_key(init, key) {
            let i = choose|i: int| 0 <= i < init.len() && #[trigger] init[i].0 == key;
            assert(entries[i].0 == key);
        }
        if has_key(entries, key) && entries.last().0 != key {
            let i = choose|i: int| 0 <= i < entries.len() && #[trigger] entries[i].0 == key;
            assert(init[i].0 == key);
        }
        if entries.last().0 == key {
            assert(entries[entries.len() - 1].0 == key);
        }
    }
}

fn push_line(out: &mut Vec<String>, key: &str, local: bool, value: &str)
    ensures
        strings_view(final(out)@) == strings_view(old(out)@).push(setting_line(key@, local, value@)),
{
    let mut line = key.to_owned();
    if local {
        line.append("(local) \"");
    } else {
        line.append("(global) \"");
    }
    line.append(value);
    line.append("\"");
    out.push(line);
    assert(strings_view(final(out)@) =~= strings_view(old(out)@).push(
        setting_line(key@, local, value@),
    ));
}

/// The lines that `cntl config --all` prints, given the settings of the
/// local and of the global scope.
pub fn list_config(
    local_entries: &Vec<(String, String)>,
    global_entries: &Vec<(String, String)>,
    verbose: bool,
) -> (lines: Vec<String>)
    ensures
        exists|keys: Seq<Seq<char>>|
            {
                &&& #[trigger] listing_keys(
                    keys,
                    entries_view(local_entries@),
                    entries_view(global_entries@),
                )
                &&& strings_view(lines@) == if keys.len() == 0 {
                    seq![no_settings_line()]
                } else {
                    listing_lines(
                        keys,
                        entries_view(local_entries@),
                        entries_view(global_entries@),
                        verbose,
                    )
                }
            },
{
    let ghost lv = entries_view(local_entries@);
    let ghost gv = entries_view(global_entries@);
    let keys = setting_keys(local_entries, global_entries);
    let mut lines: Vec<String> = Vec::new();
    if keys.len() == 0 {
        lines.push("no configuration set".to_owned());
        assert(strings_view(lines@) =~= seq![no_settings_line()]);
        return lines;
    }
    let mut i: usize = 0;
    while i < keys.len()
        invariant
            i <= keys@.len(),
            lv == entries_view(local_entries@),
            gv == entries_view(global_entries@),
            strings_view(lines@) == listing_lines(strings_view(keys@).take(i as int), lv, gv, verbose),
        decreases keys@.len() - i,
    {
        let key = keys[i].as_str();
        let ghost kv = strings_view(keys@);
        assert(kv.take(i + 1).drop_last() =~= kv.take(i as int));
        assert(kv.take(i + 1).last() == key@);
        let l = find_setting(local_entries, key);
        let g = find_setting(global_entries, key);
        match (l, g) {
            (Some(v), Some(gval)) => {
                push_line(&mut lines, key, true, v.as_str());
                if verbose {
                    let mut line = "  shadowed: global = \"".to_owned();
                    line.append(gval.as_str());
                    line.append("\"");
                    let ghost before = strings_view(lines@);
                    lines.push(line);
                    assert(strings_view(lines@) =~= before.push(shadowed_line(gval@)));
                }
            },
            (Some(v), None) => push_line(&mut lines, key, true, v.as_str()),
            (None, Some(gval)) => push_line(&mut lines, key, false, gval.as_str()),
            (None, None) => {},
        }
        i = i + 1;
        assert(strings_view(lines@) =~= listing_lines(kv.take(i as int), lv, gv, verbose));
    }
    assert(strings_view(keys@).take(i as int) =~= strings_view(keys@));
    lines
}

/// Some string among the first `n` has the text `k`.
pub open spec fn text_among(s: Seq<String>, n: int, k: Seq<char>) -> bool {
    exists|j: int| 0 <= j < n && #[trigger] s[j]@ == k
}

/// Every key of either list of settings, once each, in byte order.
fn setting_keys(local_entries: &Vec<(String, String)>, global_entries: &Vec<(String, String)>) -> (keys:
    Vec<String>)
    ensures
        listing_keys(
            strings_view(keys@),
            entries_view(local_entries@),
            entries_view(global_entries@),
        ),
{
    let mut all: Vec<String> = Vec::new();
    let mut i: usize = 0;
    while i < local_entries.len()
        invariant
            i <= local_entries@.len(),
            all@.len() == i,
            forall|j: int| 0 <= j < i ==> #[trigger] all@[j]@ == local_entries@[j].0@,
        decreases local_entries@.len() - i,
    {
        all.push(local_entries[i].0.clone());
        i = i + 1;
    }
    let mut i: usize = 0;
    while i < global_entries.len()
        invariant
            i <= global_entries@.len(),
            all@.len() == local_entries@.len() + i,
            forall|j: int| 0 <= j < local_entries@.len() ==> #[trigger] all@[j]@ == local_entries@[j].0@,
            forall|j: int|
                0 <= j < i ==> #[trigger] all@[local_entries@.len() + j]@ == global_entries@[j].0@,
        decreases global_entries@.len() - i,
    {
        all.push(global_entries[i].0.clone());
        i = i + 1;
    }
    let ghost lv = entries_view(local_entries@);
    let ghost gv = entries_view(global_entries@);
    let ghost all_v = all@;
    proof {
        assert forall|k: Seq<char>|
            #[trigger] text_among(all_v, all_v.len() as int, k) <==> (has_key(lv, k)
                || has_key(gv, k)) by {
            if exists|j: int| 0 <= j < all_v.len() && #[trigger] all_v[j]@ == k {
                let j = choose|j: int| 0 <= j < all_v.len() && #[trigger] all_v[j]@ == k;
                if j < local_entries@.len() {
                    assert(lv[j].0 == k);
                } else {
                    let jj = j - local_entries@.len();
                    assert(all_v[local_entries@.len() + jj]@ == global_entries@[jj].0@);
                    assert(gv[jj].0 == k);
                }
            }
            if has_key(lv, k) {
                let j = choose|j: int| 0 <= j < lv.len() && #[trigger] lv[j].0 == k;
                assert(all_v[j]@ == k);
            }
            if has_key(gv, k) {
                let j = choose|j: int| 0 <= j < gv.len() && #[trigger] gv[j].0 == k;
                assert(all_v[local_entries@.len() + j]@ == k);
            }
        }
    }
    let sorted = sort_by_name(all);
    let ghost sv = sorted@;
    proof {
        assert forall|k: Seq<char>|
            #[trigger] text_among(sv, sv.len() as int, k) <==> text_among(all_v, all_v.len() as int, k) by {
            if exists|j: int| 0 <= j < sv.len() && #[trigger] sv[j]@ == k {
                let j = choose|j: int| 0 <= j < sv.len() && #[trigger] sv[j]@ == k;
                lemma_multiset_member(sv, all_v, sv[j]);
                let m = choose|m: int| 0 <= m < all_v.len() && all_v[m] == sv[j];
                assert(all_v[m]@ == k);
            }
            if exists|j: int| 0 <= j < all_v.len() && #[trigger] all_v[j]@ == k {
                let j = choose|j: int| 0 <= j < all_v.len() && #[trigger] all_v[j]@ == k;
                lemma_multiset_member(all_v, sv, all_v[j]);
                let m = choose|m: int| 0 <= m < sv.len() && sv[m] == all_v[j];
                assert(sv[m]@ == k);
            }
        }
    }
    let mut keys: Vec<String> = Vec::new();
    let mut i: usize = 0;
    while i < sorted.len()
        invariant
            i <= sv.len(),
            sv == sorted@,
            sorted_by_name(sv),
            texts_strictly_sorted(strings_view(keys@)),
            keys@.len() > 0 ==> i > 0 && keys@.last()@ == sv[i - 1]@,
            keys@.len() == 0 ==> i == 0,
            forall|k: Seq<char>|
                #[trigger] strings_view(keys@).contains(k) <==> text_among(sv, i as int, k),
        decreases sv.len() - i,
    {
        let ghost kv = strings_view(keys@);
        let fresh = if keys.len() == 0 {
            true
        } else {
            compare_text(keys[keys.len() - 1].as_str(), sorted[i].as_str()) != TextOrder::Equal
        };
        if fresh {
            proof {
                if kv.len() > 0 {
                    assert(!bytes_lt(sv[i as int].name_key(), sv[i - 1].name_key()));
                    lemma_text_lt_order(sv[i - 1]@, sv[i as int]@, sv[i as int]@);
                    assert forall|a: int| 0 <= a < kv.len() implies text_lt(
                        #[trigger] kv[a],
                        sv[i as int]@,
                    ) by {
                        if a < kv.len() - 1 {
                            lemma_text_lt_order(kv[a], kv[kv.len() - 1], sv[i as int]@);
                        }
                    }
                }
            }
            keys.push(sorted[i].clone());
            proof {
                let nk = strings_view(keys@);
                assert(nk =~= kv.push(sv[i as int]@));
                assert forall|k: Seq<char>|
                    #[trigger] nk.contains(k) <==> text_among(sv, i + 1, k) by {
                    if nk.contains(k) && k != sv[i as int]@ {
                        assert(kv.contains(k)) by {
                            let a = choose|a: int| 0 <= a < nk.len() && nk[a] == k;
                            assert(kv[a] == k);
                        }
                    }
                    if text_among(sv, i as int, k) {
                        assert(kv.contains(k));
                        let a = choose|a: int| 0 <= a < kv.len() && kv[a] == k;
                        assert(nk[a] == k);
                    }
                    if k == sv[i as int]@ {
                        assert(nk[nk.len() - 1] == k);
                    }
                    if text_among(sv, i + 1, k) && k != sv[i as int]@ {
                        let j = choose|j: int| 0 <= j < i + 1 && #[trigger] sv[j]@ == k;
                        assert(text_among(sv, i as int, k));
                    }
                }
            }
        } else {
            proof {
                assert forall|k: Seq<char>|
                    #[trigger] kv.contains(k) <==> text_among(sv, i + 1, k) by {
                    if k == sv[i as int]@ {
                        assert(kv[kv.len() - 1] == k);
                    }
                    if text_among(sv, i + 1, k) && k != sv[i as int]@ {
                        let j = choose|j: int| 0 <= j < i + 1 && #[trigger] sv[j]@ == k;
                        assert(text_among(sv, i as int, k));
                    }
                }
            }
        }
        i = i + 1;
    }
    proof {
        let kv = strings_view(keys@);
        assert forall|k: Seq<char>| #[trigger] kv.contains(k) <==> (has_key(
            entries_view(local_entries@),
            k,
        ) || has_key(entries_view(global_entries@), k)) by {
            assert(text_among(sv, sv.len() as int, k) <==> text_among(all_v, all_v.len() as int, k));
        }
    }
    keys
}

proof fn lemma_multiset_member<T>(a: Seq<T>, b: Seq<T>, x: T)
    requires
        a.to_multiset() =~= b.to_multiset(),
        a.contains(x),
    ensures
        exists|m: int| 0 <= m < b.len() && b[m] == x,
{
    a.to_multiset_ensures();
    b.to_multiset_ensures();
    assert(a.to_multiset().count(x) > 0);
    assert(b.to_multiset().count(x) > 0);
    assert(b.contains(x));
}


proof fn lemma_strictly_sorted_unique(a: Seq<Seq<char>>, b: Seq<Seq<char>>)
    requires
        texts_strictly_sorted(a),
        texts_strictly_sorted(b),
        forall|k: Seq<char>| #[trigger] a.contains(k) <==> b.contains(k),
    ensures
        a == b,
    decreases a.len() + b.len(),
{
    if a.len() == 0 || b.len() == 0 {
        if a.len() > 0 {
            assert(a.contains(a[0]));
            assert(b.contains(a[0]));
        }
        if b.len() > 0 {
            assert(b.contains(b[0]));
            assert(a.contains(b[0]));
        }
        assert(a =~= b);
    } else {
        assert(a.contains(a[0]));
        assert(b.contains(a[0]));
        assert(b.contains(b[0]));
        assert(a.contains(b[0]));
        let j = choose|j: int| 0 <= j < b.len() && b[j] == a[0];
        let i = choose|i: int| 0 <= i < a.len() && a[i] == b[0];
        if j > 0 && i > 0 {
            assert(text_lt(b[0], b[j]));
            assert(text_lt(a[0], a[i]));
            lemma_text_lt_order(a[0], b[0], a[0]);
        }
        if j > 0 && i == 0 {
            assert(text_lt(b[0], b[j]));
            lemma_text_lt_order(b[0], b[0], b[0]);
        }
        if j == 0 && i > 0 {
            assert(text_lt(a[0], a[i]));
            lemma_text_lt_order(a[0], a[0], a[0]);
        }
        assert(a[0] == b[0]);
        let a1 = a.drop_first();
        let b1 = b.drop_first();
        assert forall|k: Seq<char>| #[trigger] a1.contains(k) <==> b1.contains(k) by {
            if a1.contains(k) {
                let x = choose|x: int| 0 <= x < a1.len() && a1[x] == k;
                assert(a[x + 1] == k);
                assert(text_lt(a[0], a[x + 1]));
                lemma_text_lt_order(a[0], k, k);
                assert(a.contains(k));
                assert(b.contains(k));
                let y = choose|y: int| 0 <= y < b.len() && b[y] == k;
                assert(y != 0);
                assert(b1[y - 1] == k);
            }
            if b1.contains(k) {
                let x = choose|x: int| 0 <= x < b1.len() && b1[x] == k;
                assert(b[x + 1] == k);
                assert(text_lt(b[0], b[x + 1]));
                lemma_text_lt_order(b[0], k, k);
                assert(b.contains(k));
                assert(a.contains(k));
                let y = choose|y: int| 0 <= y < a.len() && a[y] == k;
                assert(y != 0);
                assert(a1[y - 1] == k);
            }
        }
        assert forall|x: int, y: int| 0 <= x < y < a1.len() implies text_lt(#[trigger] a1[x], #[trigger] a1[y]) by {
            assert(text_lt(a[x + 1], a[y + 1]));
        }
        assert forall|x: int, y: int| 0 <= x < y < b1.len() implies text_lt(#[trigger] b1[x], #[trigger] b1[y]) by {
            assert(text_lt(b[x + 1], b[y + 1]));
        }
        lemma_strictly_sorted_unique(a1, b1);
        assert(a =~= seq![a[0]] + a1);
        assert(b =~= seq![b[0]] + b1);
    }
}

/// Law: the keys that `cntl config --all` lists are determined by the
/// settings: every key of either scope, each once, in byte order.
pub proof fn listing_keys_determined(
    k1: Seq<Seq<char>>,
    k2: Seq<Seq<char>>,
    local: Seq<(Seq<char>, Seq<char>)>,
    global: Seq<(Seq<char>, Seq<char>)>,
)
    requires
        listing_keys(k1, local, global),
        listing_keys(k2, local, global),
    ensures
        k1 == k2,
{
    assert forall|k: Seq<char>| #[trigger] k1.contains(k) <==> k2.contains(k) by {
        assert(k1.contains(k) <==> (has_key(local, k) || has_key(global, k)));
        assert(k2.contains(k) <==> (has_key(local, k) || has_key(global, k)));
    }
    lemma_strictly_sorted_unique(k1, k2);
}

/// Law: a listed key shows its local value when the local scope sets it,
/// else its global one.
pub proof fn listed_value_prefers_local(
    key: Seq<char>,
    local: Seq<(Seq<char>, Seq<char>)>,
    global: Seq<(Seq<char>, Seq<char>)>,
    verbose: bool,
)
    requires
        has_key(local, key) || has_key(global, key),
    ensures
        key_lines(key, local, global, verbose).len() >= 1,
        key_lines(key, local, global, verbose)[0] == if has_key(local, key) {
            setting_line(key, true, setting_value(local, key)->0)
        } else {
            setting_line(key, false, setting_value(global, key)->0)
        },
{
    lemma_has_key_value(local, key);
    lemma_has_key_value(global, key);
}

} // verus!
