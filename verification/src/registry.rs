//! Building a validated, version-ordered registry from `(filename, content)` pairs.
use vstd::prelude::*;

use std::collections::BTreeMap;
use vstd::std_specs::btree::spec_btree_map_iter;
use vstd::std_specs::cmp::OrdSpec;
use vstd::std_specs::iter::IteratorSpec;
use vstd::string::StringExecFns;

use crate::migration::{
    checksum, lemma_parsed_version_nonzero, parse_error_text, parse_filename, spec_checksum, spec_parse_filename, Direction,
    Migration, MigrationView, ParseError,
};
use crate::text::{append_radix, decimal_digits};

verus! {

broadcast use vstd::std_specs::btree::group_btree_axioms;

/// Why a set of migration files does not form a registry.
#[derive(Debug, Clone, PartialEq, Eq)]
pub enum BuildError {
    /// A filename didn't parse; `file` is the name that failed.
    Parse { file: String, source: ParseError },
    /// Two `up` files claimed the same version number.
    DuplicateUp { version: u64, first_name: String, second_name: String },
    /// Two `down` files claimed the same version number.
    DuplicateDown { version: u64 },
    /// A `down` file exists with no matching `up` file for that version.
    MissingUp { version: u64 },
    /// The `up` and `down` files for a version disagree on the migration name.
    NameMismatch { version: u64, up_name: String, down_name: String },
}

/// A build error as plain values.
pub enum BuildErrorView {
    Parse { file: Seq<char>, source: ParseError },
    DuplicateUp { version: u64, first_name: Seq<char>, second_name: Seq<char> },
    DuplicateDown { version: u64 },
    MissingUp { version: u64 },
    NameMismatch { version: u64, up_name: Seq<char>, down_name: Seq<char> },
}

impl View for BuildError {
    type V = BuildErrorView;

    open spec fn view(&self) -> BuildErrorView {
        match self {
            BuildError::Parse { file, source } => BuildErrorView::Parse { file: file@, source: *source },
            BuildError::DuplicateUp { version, first_name, second_name } => BuildErrorView::DuplicateUp {
                version: *version,
                first_name: first_name@,
                second_name: second_name@,
            },
            BuildError::DuplicateDown { version } => BuildErrorView::DuplicateDown { version: *version },
            BuildError::MissingUp { version } => BuildErrorView::MissingUp { version: *version },
            BuildError::NameMismatch { version, up_name, down_name } => BuildErrorView::NameMismatch {
                version: *version,
                up_name: up_name@,
                down_name: down_name@,
            },
        }
    }
}

/// A validated, version-ordered set of migrations.
#[derive(Debug, Clone, PartialEq, Eq)]
pub struct Registry {
    pub migrations: Vec<Migration>,
}

impl View for Registry {
    type V = Seq<MigrationView>;

    open spec fn view(&self) -> Seq<MigrationView> {
        self.migrations@.map_values(|m: Migration| m@)
    }
}

/// The text of a build error's message.
pub open spec fn build_error_text(e: BuildErrorView) -> Seq<char> {
    match e {
        BuildErrorView::Parse { file, source } => file + ": "@ + parse_error_text(source),
        BuildErrorView::DuplicateUp { version, first_name, second_name } => "version "@
            + decimal_digits(version as nat) + " has two up files: \""@ + first_name
            + "\" and \""@ + second_name + "\""@,
        BuildErrorView::DuplicateDown { version } => "version "@ + decimal_digits(version as nat)
            + " has two down files"@,
        BuildErrorView::MissingUp { version } => "version "@ + decimal_digits(version as nat)
            + " has a down file but no up file"@,
        BuildErrorView::NameMismatch { version, up_name, down_name } => "version "@
            + decimal_digits(version as nat) + " names disagree: up is \""@ + up_name
            + "\", down is \""@ + down_name + "\""@,
    }
}

impl BuildError {
    /// A human-readable description of the error.
    pub fn message(&self) -> (r: String)
        ensures
            r@ == build_error_text(self@),
    {
        let mut out = String::new();
        match self {
            BuildError::Parse { file, source } => {
                out.append(file.as_str());
                out.append(": ");
                let detail = source.message();
                out.append(detail.as_str());
            },
            BuildError::DuplicateUp { version, first_name, second_name } => {
                out.append("version ");
                append_radix(&mut out, *version, 10);
                out.append(" has two up files: \"");
                out.append(first_name.as_str());
                out.append("\" and \"");
                out.append(second_name.as_str());
                out.append("\"");
            },
            BuildError::DuplicateDown { version } => {
                out.append("version ");
                append_radix(&mut out, *version, 10);
                out.append(" has two down files");
            },
            BuildError::MissingUp { version } => {
                out.append("version ");
                append_radix(&mut out, *version, 10);
                out.append(" has a down file but no up file");
            },
            BuildError::NameMismatch { version, up_name, down_name } => {
                out.append("version ");
                append_radix(&mut out, *version, 10);
                out.append(" names disagree: up is \"");
                out.append(up_name.as_str());
                out.append("\", down is \"");
                out.append(down_name.as_str());
                out.append("\"");
            },
        }
        assert(out@ =~= build_error_text(self@));
        out
    }
}

/// `i` is the position of the first migration in `ms` with version `version`.
pub open spec fn is_first_with_version(ms: Seq<Migration>, version: u64, i: int) -> bool {
    &&& 0 <= i < ms.len()
    &&& ms[i].version == version
    &&& forall|j: int| 0 <= j < i ==> ms[j].version != version
}

/// The position of the first migration in `ms` with version `version`, if any.
pub open spec fn position_of(ms: Seq<Migration>, version: u64) -> Option<int> {
    if exists|i: int| is_first_with_version(ms, version, i) {
        Some(choose|i: int| is_first_with_version(ms, version, i))
    } else {
        None
    }
}

/// A first position, once found, is the one `position_of` names.
pub proof fn lemma_position_of_is(ms: Seq<Migration>, version: u64, i: int)
    requires
        is_first_with_version(ms, version, i),
    ensures
        position_of(ms, version) == Some(i),
{
    let chosen = choose|j: int| is_first_with_version(ms, version, j);
    assert(is_first_with_version(ms, version, chosen));
    if chosen < i {
        assert(ms[chosen].version == version);
    } else if chosen > i {
        assert(ms[i].version == version);
    }
}

impl Registry {
    /// The first migration with version `version`, if any.
    pub open spec fn spec_get(&self, version: u64) -> Option<Migration> {
        match position_of(self.migrations@, version) {
            Some(i) => Some(self.migrations@[i]),
            None => None,
        }
    }

    /// Some migration of the registry has version `version`.
    pub open spec fn has_version(&self, version: u64) -> bool {
        exists|i: int| 0 <= i < self.migrations@.len() && #[trigger] self.migrations@[i].version == version
    }

    /// The position of the first migration with version `version`.
    pub fn position(&self, version: u64) -> (r: Option<usize>)
        ensures
            match r {
                Some(i) => position_of(self.migrations@, version) == Some(i as int),
                None => position_of(self.migrations@, version) is None,
            },
            r is Some <==> self.has_version(version),
    {
        let ghost ms = self.migrations@;
        let mut k: usize = 0;
        while k < self.migrations.len()
            invariant
                ms == self.migrations@,
                k <= ms.len(),
                forall|j: int| 0 <= j < k ==> ms[j].version != version,
            decreases ms.len() - k,
        {
            if self.migrations[k].version == version {
                proof {
                    lemma_position_of_is(ms, version, k as int);
                }
                return Some(k);
            }
            k = k + 1;
        }
        assert(!exists|i: int| is_first_with_version(ms, version, i));
        assert(!self.has_version(version));
        None
    }

    /// Looks up the migration with the given version, which is stored without
    /// the leading zeros its filename may have had.
    pub fn get(&self, version: u64) -> (r: Option<&Migration>)
        ensures
            match r {
                Some(m) => self.spec_get(version) == Some(*m),
                None => self.spec_get(version) is None,
            },
            r is Some <==> self.has_version(version),
    {
        match self.position(version) {
            Some(i) => Some(&self.migrations[i]),
            None => None,
        }
    }
}

impl Default for Registry {
    fn default() -> (r: Registry)
        ensures
            r.migrations@ == Seq::<Migration>::empty(),
    {
        Registry { migrations: Vec::new() }
    }
}

/// The up and down halves collected for one version so far, each as (name, sql).
pub struct EntryView {
    pub up: Option<(Seq<char>, Seq<char>)>,
    pub down: Option<(Seq<char>, Seq<char>)>,
}

/// The entry for `version` in `entries`, empty when there is none yet.
pub open spec fn entry_or_empty(entries: Map<u64, EntryView>, version: u64) -> EntryView {
    if entries.contains_key(version) {
        entries[version]
    } else {
        EntryView { up: None, down: None }
    }
}

/// Folds one `(filename, content)` pair into the entries collected so far.
pub open spec fn collect_file(entries: Map<u64, EntryView>, file: (Seq<char>, Seq<char>)) -> Result<
    Map<u64, EntryView>,
    BuildErrorView,
> {
    match spec_parse_filename(file.0) {
        Err(source) => Err(BuildErrorView::Parse { file: file.0, source }),
        Ok((version, name, direction)) => {
            let entry = entry_or_empty(entries, version);
            match direction {
                Direction::Up => match entry.up {
                    Some((first_name, _)) => Err(
                        BuildErrorView::DuplicateUp { version, first_name, second_name: name },
                    ),
                    None => Ok(
                        entries.insert(version, EntryView { up: Some((name, file.1)), down: entry.down }),
                    ),
                },
                Direction::Down => match entry.down {
                    Some(_) => Err(BuildErrorView::DuplicateDown { version }),
                    None => Ok(
                        entries.insert(version, EntryView { up: entry.up, down: Some((name, file.1)) }),
                    ),
                },
            }
        },
    }
}

/// Folds all files, in input order, into entries keyed by version; the first
/// file that does not parse or that repeats a half of a version stops the fold.
pub open spec fn collect_files(files: Seq<(Seq<char>, Seq<char>)>) -> Result<
    Map<u64, EntryView>,
    BuildErrorView,
>
    decreases files.len(),
{
    if files.len() == 0 {
        Ok(Map::empty())
    } else {
        match collect_files(files.drop_last()) {
            Err(e) => Err(e),
            Ok(entries) => collect_file(entries, files.last()),
        }
    }
}

/// What is wrong with the entry for `version`, if anything.
pub open spec fn entry_error(version: u64, entry: EntryView) -> Option<BuildErrorView> {
    match entry.up {
        None => Some(BuildErrorView::MissingUp { version }),
        Some((up_name, _)) => match entry.down {
            Some((down_name, _)) => if down_name != up_name {
                Some(BuildErrorView::NameMismatch { version, up_name, down_name })
            } else {
                None
            },
            None => None,
        },
    }
}

/// The migration that a sound entry for `version` becomes.
pub open spec fn entry_migration(version: u64, entry: EntryView) -> MigrationView {
    let up = entry.up.unwrap();
    MigrationView {
        version,
        name: up.0,
        up_sql: up.1,
        down_sql: match entry.down {
            Some(down) => Some(down.1),
            None => None,
        },
        up_checksum: spec_checksum(up.1),
        down_checksum: match entry.down {
            Some(down) => Some(spec_checksum(down.1)),
            None => None,
        },
    }
}

/// `version` is the smallest version whose entry is unsound.
pub open spec fn is_first_unsound(entries: Map<u64, EntryView>, version: u64) -> bool {
    &&& entries.contains_key(version)
    &&& entry_error(version, entries[version]) is Some
    &&& forall|w: u64| #[trigger]
        entries.contains_key(w) && w < version ==> entry_error(w, entries[w]) is None
}

/// Every entry is sound.
pub open spec fn all_sound(entries: Map<u64, EntryView>) -> bool {
    forall|v: u64| #[trigger] entries.contains_key(v) ==> entry_error(v, entries[v]) is None
}

/// `migrations` lists one migration per entry, in strictly ascending version order.
pub open spec fn lists_migrations(entries: Map<u64, EntryView>, migrations: Seq<MigrationView>) -> bool {
    &&& forall|i: int, j: int|
        0 <= i < j < migrations.len() ==> #[trigger] migrations[i].version
            < #[trigger] migrations[j].version
    &&& forall|i: int|
        0 <= i < migrations.len() ==> {
            &&& entries.contains_key(#[trigger] migrations[i].version)
            &&& migrations[i] == entry_migration(migrations[i].version, entries[migrations[i].version])
        }
    &&& forall|v: u64| #[trigger]
        entries.contains_key(v) ==> exists|i: int|
            0 <= i < migrations.len() && #[trigger] migrations[i].version == v
}

/// The `(filename, content)` pairs as plain text.
pub open spec fn files_view(files: Seq<(&str, &str)>) -> Seq<(Seq<char>, Seq<char>)> {
    files.map_values(|f: (&str, &str)| (f.0@, f.1@))
}

/// `r` is the outcome that building from `files` is owed.
pub open spec fn build_outcome(files: Seq<(Seq<char>, Seq<char>)>, r: Result<Registry, BuildError>) -> bool {
    match collect_files(files) {
        Err(e) => r is Err && r->Err_0@ == e,
        Ok(entries) => {
            &&& (r is Ok <==> all_sound(entries))
            &&& r matches Ok(reg) ==> lists_migrations(entries, reg@)
            &&& r matches Err(e) ==> exists|v: u64|
                is_first_unsound(entries, v) && entry_error(v, entries[v]) == Some(e@)
        },
    }
}

/// The up and down halves collected for one version.
struct Entry {
    up: Option<(String, String)>,
    down: Option<(String, String)>,
}

spec fn pair_view(p: Option<(String, String)>) -> Option<(Seq<char>, Seq<char>)> {
    match p {
        Some((a, b)) => Some((a@, b@)),
        None => None,
    }
}

impl View for Entry {
    type V = EntryView;

    closed spec fn view(&self) -> EntryView {
        EntryView { up: pair_view(self.up), down: pair_view(self.down) }
    }
}

/// The entries of an ordered map, as plain values.
spec fn entries_view(entries: Map<u64, Entry>) -> Map<u64, EntryView> {
    entries.map_values(|e: Entry| e@)
}

/// `keys` lists the keys of `m` in strictly ascending order.
spec fn ascending_keys_of(keys: Seq<u64>, m: Map<u64, EntryView>) -> bool {
    &&& forall|i: int, j: int| 0 <= i < j < keys.len() ==> #[trigger] keys[i] < #[trigger] keys[j]
    &&& forall|i: int| 0 <= i < keys.len() ==> m.contains_key(#[trigger] keys[i])
    &&& forall|v: u64| #[trigger] m.contains_key(v) ==> keys.contains(v)
}

/// Version numbers are ordered as an ordered map needs its keys to be.
proof fn lemma_versions_ordered()
    ensures
        vstd::std_specs::btree::key_obeys_cmp_spec::<u64>(),
{
    broadcast use vstd::laws_cmp::group_laws_cmp;

}

/// What iterating an ordered map yields: each key once, ascending, with its value.
proof fn lemma_map_iteration(entries: &BTreeMap<u64, Entry>)
    requires
        vstd::std_specs::btree::increasing_seq(
            spec_btree_map_iter(entries).remaining().map_values(|kv: (&u64, &Entry)| *kv.0),
        ),
    ensures
        ({
            let items = spec_btree_map_iter(entries).remaining();
            &&& forall|i: int, j: int|
                0 <= i < j < items.len() ==> *(#[trigger] items[i]).0 < *(#[trigger] items[j]).0
            &&& forall|i: int|
                0 <= i < items.len() ==> entries@.contains_key(*(#[trigger] items[i]).0)
                    && entries@[*items[i].0] == *items[i].1
            &&& forall|v: u64| #[trigger]
                entries@.contains_key(v) ==> exists|i: int|
                    0 <= i < items.len() && *(#[trigger] items[i]).0 == v
        }),
{
    broadcast use vstd::laws_cmp::group_laws_cmp;

    let items = spec_btree_map_iter(entries).remaining();
    let keys = items.map_values(|kv: (&u64, &Entry)| *kv.0);
    assert forall|i: int, j: int| 0 <= i < j < items.len() implies *(#[trigger] items[i]).0
        < *(#[trigger] items[j]).0 by {
        assert(keys[i].cmp_spec(&keys[j]) is Less);
    }
    assert forall|v: u64| #[trigger] entries@.contains_key(v) implies exists|i: int|
        0 <= i < items.len() && *(#[trigger] items[i]).0 == v by {
        assert(items.contains((&v, &entries@[v])));
        let i = choose|i: int| 0 <= i < items.len() && items[i] == (&v, &entries@[v]);
        assert(*items[i].0 == v);
    }
}

impl Registry {
    /// Builds a registry from a bag of `(filename, content)` pairs.
    ///
    /// Files are matched into up/down pairs by version number, not by input
    /// order, so callers can pass files in whatever order a directory listing
    /// returns them.
    pub fn build(files: &[(&str, &str)]) -> (r: Result<Registry, BuildError>)
        ensures
            build_outcome(files_view(files@), r),
    {
        let ghost fv = files_view(files@);
        let mut entries: BTreeMap<u64, Entry> = BTreeMap::new();
        let mut idx: usize = 0;
        assert(fv.take(0) =~= Seq::<(Seq<char>, Seq<char>)>::empty());
        assert(entries_view(entries@) =~= Map::<u64, EntryView>::empty());
        while idx < files.len()
            invariant
                idx <= files@.len(),
                fv == files_view(files@),
                collect_files(fv.take(idx as int)) == Ok::<Map<u64, EntryView>, BuildErrorView>(
                    entries_view(entries@),
                ),
            decreases files@.len() - idx,
        {
            let ghost m = entries_view(entries@);
            let ghost file = fv[idx as int];
            assert(fv.take(idx + 1).drop_last() =~= fv.take(idx as int));
            assert(fv.take(idx + 1).last() == file);
            let (filename, content) = files[idx];
            assert(file == (filename@, content@));
            let parsed = match parse_filename(filename) {
                Ok(p) => p,
                Err(source) => {
                    let file_name = filename.to_owned();
                    proof {
                        lemma_collect_stops(fv, idx + 1);
                    }
                    return Err(BuildError::Parse { file: file_name, source });
                },
            };
            let version = parsed.version;
            let ghost before = entries@;
            let mut entry = match entries.remove(&version) {
                Some(e) => e,
                None => Entry { up: None, down: None },
            };
            assert(entry@ == entry_or_empty(m, version));
            match parsed.direction {
                Direction::Up => {
                    if let Some(pair) = &entry.up {
                        let first_name = pair.0.clone();
                        proof {
                            lemma_collect_stops(fv, idx + 1);
                        }
                        return Err(
                            BuildError::DuplicateUp { version, first_name, second_name: parsed.name },
                        );
                    }
                    entry.up = Some((parsed.name, content.to_owned()));
                },
                Direction::Down => {
                    if entry.down.is_some() {
                        proof {
                            lemma_collect_stops(fv, idx + 1);
                        }
                        return Err(BuildError::DuplicateDown { version });
                    }
                    entry.down = Some((parsed.name, content.to_owned()));
                },
            }
            let ghost new_entry = entry@;
            entries.insert(version, entry);
            assert(entries@ == before.remove(version).insert(version, entries@[version]));
            assert(entries_view(entries@) =~= m.insert(version, new_entry));
            idx = idx + 1;
        }
        assert(fv.take(idx as int) =~= fv);
        let ghost m = entries_view(entries@);
        let mut migrations: Vec<Migration> = Vec::new();
        proof {
            lemma_versions_ordered();
        }
        let iter = entries.iter();
        proof {
            lemma_map_iteration(&entries);
        }
        let ghost items = iter.remaining();
        let ghost keys = items.map_values(|kv: (&u64, &Entry)| *kv.0);
        assert(ascending_keys_of(keys, m)) by {
            assert forall|v: u64| #[trigger] m.contains_key(v) implies keys.contains(v) by {
                let i = choose|i: int| 0 <= i < items.len() && *(#[trigger] items[i]).0 == v;
                assert(keys[i] == v);
            }
        }
        for item in it: iter
            invariant
                collect_files(files_view(files@)) == Ok::<Map<u64, EntryView>, BuildErrorView>(m),
                m == entries_view(entries@),
                it.seq() == items,
                keys == items.map_values(|kv: (&u64, &Entry)| *kv.0),
                ascending_keys_of(keys, m),
                forall|i: int|
                    0 <= i < items.len() ==> entries@.contains_key(*(#[trigger] items[i]).0)
                        && entries@[*items[i].0] == *items[i].1,
                migrations@.len() == it.index(),
                forall|i: int| 0 <= i < it.index() ==> entry_error(keys[i], #[trigger] m[keys[i]]) is None,
                forall|i: int|
                    0 <= i < it.index() ==> #[trigger] migrations@[i]@ == entry_migration(
                        keys[i],
                        m[keys[i]],
                    ),
        {
            let (version_ref, entry) = item;
            let version = *version_ref;
            let ghost k = it.index() as int;
            assert(keys[k] == version);
            assert(m[version] == entry@);
            let up = match &entry.up {
                None => {
                    let err = BuildError::MissingUp { version };
                    proof {
                        lemma_first_unsound(keys, m, k);
                        assert(!all_sound(m));
                    }
                    return Err(err);
                },
                Some(up) => up,
            };
            let down_sql = match &entry.down {
                Some(down) => {
                    if !(down.0 == up.0) {
                        let err = BuildError::NameMismatch {
                            version,
                            up_name: up.0.clone(),
                            down_name: down.0.clone(),
                        };
                        proof {
                            lemma_first_unsound(keys, m, k);
                            assert(!all_sound(m));
                        }
                        return Err(err);
                    }
                    Some(down.1.clone())
                },
                None => None,
            };
            let up_checksum = checksum(up.1.as_str());
            let down_checksum = match &down_sql {
                Some(sql) => Some(checksum(sql.as_str())),
                None => None,
            };
            let migration = Migration {
                version,
                name: up.0.clone(),
                up_sql: up.1.clone(),
                down_sql,
                up_checksum,
                down_checksum,
            };
            assert(migration@ == entry_migration(version, m[version]));
            migrations.push(migration);
        }
        let registry = Registry { migrations };
        proof {
            lemma_listing(keys, m, registry@);
        }
        Ok(registry)
    }
}

/// `files` with the neighbours at `i` and `i + 1` swapped.
pub open spec fn swap_adjacent(files: Seq<(Seq<char>, Seq<char>)>, i: int) -> Seq<(Seq<char>, Seq<char>)> {
    files.update(i, files[i + 1]).update(i + 1, files[i])
}

/// The entries collected from files never include version 0.
proof fn lemma_collected_versions_nonzero(files: Seq<(Seq<char>, Seq<char>)>)
    ensures
        collect_files(files) matches Ok(m) ==> !m.contains_key(0),
    decreases files.len(),
{
    if files.len() > 0 {
        lemma_collected_versions_nonzero(files.drop_last());
        lemma_parsed_version_nonzero(files.last().0);
    }
}

/// No migration of a successfully built registry has version 0, the version
/// that stands for "nothing applied yet".
pub proof fn lemma_built_versions_nonzero(files: Seq<(Seq<char>, Seq<char>)>, registry: Registry)
    requires
        build_outcome(files, Ok(registry)),
    ensures
        forall|i: int| 0 <= i < registry@.len() ==> (#[trigger] registry@[i]).version != 0,
{
    lemma_collected_versions_nonzero(files);
    let m = collect_files(files)->Ok_0;
    assert forall|i: int| 0 <= i < registry@.len() implies (#[trigger] registry@[i]).version != 0 by {
        assert(m.contains_key(registry@[i].version));
    }
}

/// The versions of `ms` strictly increase.
pub open spec fn ascending_versions(ms: Seq<Migration>) -> bool {
    forall|i: int, j: int| 0 <= i < j < ms.len() ==> #[trigger] ms[i].version < #[trigger] ms[j].version
}

/// A successfully built registry lists its migrations in strictly ascending
/// version order, so no version occurs twice.
pub proof fn lemma_built_registry_ascending(files: Seq<(Seq<char>, Seq<char>)>, registry: Registry)
    requires
        build_outcome(files, Ok(registry)),
    ensures
        ascending_versions(registry.migrations@),
{
    let ms = registry.migrations@;
    assert forall|i: int, j: int| 0 <= i < j < ms.len() implies #[trigger] ms[i].version
        < #[trigger] ms[j].version by {
        assert(registry@[i].version == ms[i].version);
        assert(registry@[j].version == ms[j].version);
    }
}

/// The half of an entry that a file of direction `direction` fills.
pub open spec fn half(entry: EntryView, direction: Direction) -> Option<(Seq<char>, Seq<char>)> {
    match direction {
        Direction::Up => entry.up,
        Direction::Down => entry.down,
    }
}

/// What a successful fold of `files` into `m` guarantees: every file filled its
/// own half of its version's entry, no two files claimed the same half, and every
/// up half came from some file.
spec fn collected_faithfully(files: Seq<(Seq<char>, Seq<char>)>, m: Map<u64, EntryView>) -> bool {
    &&& forall|k: int|
        0 <= k < files.len() ==> #[trigger] spec_parse_filename(files[k].0) is Ok && {
            let (v, n, d) = spec_parse_filename(files[k].0)->Ok_0;
            m.contains_key(v) && half(m[v], d) == Some((n, files[k].1))
        }
    &&& forall|i: int, j: int|
        0 <= i < j < files.len() ==> {
            let (vi, _, di) = spec_parse_filename(#[trigger] files[i].0)->Ok_0;
            let (vj, _, dj) = spec_parse_filename(#[trigger] files[j].0)->Ok_0;
            !(vi == vj && di == dj)
        }
    &&& forall|v: u64, d: Direction|
        #[trigger] m.contains_key(v) && #[trigger] half(m[v], d) is Some ==> exists|k: int|
            0 <= k < files.len() && spec_parse_filename(#[trigger] files[k].0) is Ok
                && spec_parse_filename(files[k].0)->Ok_0.0 == v
                && spec_parse_filename(files[k].0)->Ok_0.2 == d
    &&& forall|v: u64| #[trigger] m.contains_key(v) ==> m[v].up is Some || m[v].down is Some
}

proof fn lemma_collected_faithfully(files: Seq<(Seq<char>, Seq<char>)>)
    ensures
        collect_files(files) matches Ok(m) ==> collected_faithfully(files, m),
    decreases files.len(),
{
    if files.len() > 0 {
        let pre = files.drop_last();
        lemma_collected_faithfully(pre);
        if let Ok(m) = collect_files(files) {
            let m0 = collect_files(pre)->Ok_0;
            let f = files.last();
            let last = files.len() - 1;
            assert(files[last] == f);
            let (v, n, d) = spec_parse_filename(f.0)->Ok_0;
            let e0 = entry_or_empty(m0, v);
            assert(half(e0, d) is None);
            assert(m.contains_key(v) && half(m[v], d) == Some((n, f.1)));
            assert forall|k: int| 0 <= k < files.len() implies #[trigger] spec_parse_filename(
                files[k].0,
            ) is Ok && {
                let (vk, nk, dk) = spec_parse_filename(files[k].0)->Ok_0;
                m.contains_key(vk) && half(m[vk], dk) == Some((nk, files[k].1))
            } by {
                if k < last {
                    assert(files[k] == pre[k]);
                    let (vk, nk, dk) = spec_parse_filename(pre[k].0)->Ok_0;
                    assert(m0.contains_key(vk) && half(m0[vk], dk) == Some((nk, pre[k].1)));
                    if vk == v {
                        assert(dk != d);
                    }
                }
            }
            assert forall|i: int, j: int| 0 <= i < j < files.len() implies {
                let (vi, _, di) = spec_parse_filename(#[trigger] files[i].0)->Ok_0;
                let (vj, _, dj) = spec_parse_filename(#[trigger] files[j].0)->Ok_0;
                !(vi == vj && di == dj)
            } by {
                assert(files[i] == pre[i]);
                if j < last {
                    assert(files[j] == pre[j]);
                } else {
                    let (vi, ni, di) = spec_parse_filename(pre[i].0)->Ok_0;
                    assert(m0.contains_key(vi) && half(m0[vi], di) == Some((ni, pre[i].1)));
                }
            }
            assert forall|w: u64, dw: Direction|
                #[trigger] m.contains_key(w) && #[trigger] half(m[w], dw) is Some implies exists|k: int|
                0 <= k < files.len() && spec_parse_filename(#[trigger] files[k].0) is Ok
                    && spec_parse_filename(files[k].0)->Ok_0.0 == w
                    && spec_parse_filename(files[k].0)->Ok_0.2 == dw by {
                if w == v && d == dw {
                    assert(spec_parse_filename(files[last].0)->Ok_0.0 == w);
                } else {
                    assert(m0.contains_key(w) && half(m0[w], dw) is Some);
                    let k = choose|k: int|
                        0 <= k < pre.len() && spec_parse_filename(#[trigger] pre[k].0) is Ok
                            && spec_parse_filename(pre[k].0)->Ok_0.0 == w
                            && spec_parse_filename(pre[k].0)->Ok_0.2 == dw;
                    assert(files[k] == pre[k]);
                }
            }
            assert forall|w: u64| #[trigger] m.contains_key(w) implies m[w].up is Some
                || m[w].down is Some by {
                if w != v {
                    assert(m0.contains_key(w));
                }
            }
        }
    }
}

/// The migrations of a successful build hold the bodies of their own files:
/// each migration's name and `up_sql` are those of an up file of its version,
/// its `down_sql` is the body of the down file of its version if there is one
/// and absent otherwise, every up file's body is in the registry under its
/// version, and the checksums are those of the bodies held.
pub proof fn lemma_built_migrations_hold_their_files(
    files: Seq<(Seq<char>, Seq<char>)>,
    registry: Registry,
)
    requires
        build_outcome(files, Ok(registry)),
    ensures
        forall|i: int|
            0 <= i < registry@.len() ==> exists|k: int|
                0 <= k < files.len() && spec_parse_filename(#[trigger] files[k].0) == Ok::<
                    (u64, Seq<char>, Direction),
                    ParseError,
                >(((#[trigger] registry@[i]).version, registry@[i].name, Direction::Up))
                    && registry@[i].up_sql == files[k].1,
        forall|k: int|
            0 <= k < files.len() ==> (#[trigger] spec_parse_filename(files[k].0) matches Ok(
                (v, _, Direction::Up),
            ) ==> exists|i: int|
                0 <= i < registry@.len() && registry@[i].version == v && registry@[i].up_sql
                    == files[k].1),
        forall|i: int, k: int|
            0 <= i < registry@.len() && 0 <= k < files.len() && (#[trigger] spec_parse_filename(
                files[k].0,
            ) matches Ok((v, _, Direction::Down)) && v == (#[trigger] registry@[i]).version)
                ==> registry@[i].down_sql == Some(files[k].1),
        forall|i: int|
            0 <= i < registry@.len() && (#[trigger] registry@[i]).down_sql is Some ==> exists|k: int|
                0 <= k < files.len() && (spec_parse_filename(#[trigger] files[k].0) matches Ok(
                    (v, _, Direction::Down),
                ) && v == registry@[i].version),
        forall|i: int|
            0 <= i < registry@.len() ==> (#[trigger] registry@[i]).up_checksum == spec_checksum(
                registry@[i].up_sql,
            ) && registry@[i].down_checksum == match registry@[i].down_sql {
                Some(sql) => Some(spec_checksum(sql)),
                None => None::<u64>,
            },
{
    lemma_built_up_from_file(files, registry);
    lemma_up_files_built(files, registry);
    lemma_built_down_from_file(files, registry);
    lemma_built_down_has_file(files, registry);
    lemma_built_checksums(files, registry);
}

proof fn lemma_built_up_from_file(files: Seq<(Seq<char>, Seq<char>)>, registry: Registry)
    requires
        build_outcome(files, Ok(registry)),
    ensures
        forall|i: int|
            0 <= i < registry@.len() ==> exists|k: int|
                0 <= k < files.len() && spec_parse_filename(#[trigger] files[k].0) == Ok::<
                    (u64, Seq<char>, Direction),
                    ParseError,
                >(((#[trigger] registry@[i]).version, registry@[i].name, Direction::Up))
                    && registry@[i].up_sql == files[k].1,
{
    lemma_collected_faithfully(files);
    let m = collect_files(files)->Ok_0;
    let reg = registry@;
    assert forall|i: int| 0 <= i < reg.len() implies exists|k: int|
        0 <= k < files.len() && spec_parse_filename(#[trigger] files[k].0) == Ok::<
            (u64, Seq<char>, Direction),
            ParseError,
        >(((#[trigger] reg[i]).version, reg[i].name, Direction::Up)) && reg[i].up_sql == files[k].1 by {
        let v = reg[i].version;
        assert(m.contains_key(v));
        assert(entry_error(v, m[v]) is None);
        assert(half(m[v], Direction::Up) is Some);
        let k = choose|k: int|
            0 <= k < files.len() && spec_parse_filename(#[trigger] files[k].0) is Ok
                && spec_parse_filename(files[k].0)->Ok_0.0 == v
                && spec_parse_filename(files[k].0)->Ok_0.2 == Direction::Up;
        assert(spec_parse_filename(files[k].0) is Ok);
    }
}

proof fn lemma_up_files_built(files: Seq<(Seq<char>, Seq<char>)>, registry: Registry)
    requires
        build_outcome(files, Ok(registry)),
    ensures
        forall|k: int|
            0 <= k < files.len() ==> (#[trigger] spec_parse_filename(files[k].0) matches Ok(
                (v, _, Direction::Up),
            ) ==> exists|i: int|
                0 <= i < registry@.len() && registry@[i].version == v && registry@[i].up_sql
                    == files[k].1),
{
    lemma_collected_faithfully(files);
    let m = collect_files(files)->Ok_0;
    let reg = registry@;
    assert forall|k: int| 0 <= k < files.len() implies (#[trigger] spec_parse_filename(
        files[k].0,
    ) matches Ok((v, _, Direction::Up)) ==> exists|i: int|
        0 <= i < reg.len() && reg[i].version == v && reg[i].up_sql == files[k].1) by {
        assert(spec_parse_filename(files[k].0) is Ok);
        if let Ok((v, _, Direction::Up)) = spec_parse_filename(files[k].0) {
            assert(m.contains_key(v));
            let i = choose|i: int| 0 <= i < reg.len() && #[trigger] reg[i].version == v;
            assert(reg[i] == entry_migration(v, m[v]));
        }
    }
}

proof fn lemma_built_down_from_file(files: Seq<(Seq<char>, Seq<char>)>, registry: Registry)
    requires
        build_outcome(files, Ok(registry)),
    ensures
        forall|i: int, k: int|
            0 <= i < registry@.len() && 0 <= k < files.len() && (#[trigger] spec_parse_filename(
                files[k].0,
            ) matches Ok((v, _, Direction::Down)) && v == (#[trigger] registry@[i]).version)
                ==> registry@[i].down_sql == Some(files[k].1),
{
    lemma_collected_faithfully(files);
    let m = collect_files(files)->Ok_0;
    let reg = registry@;
    assert forall|i: int, k: int|
        0 <= i < reg.len() && 0 <= k < files.len() && (#[trigger] spec_parse_filename(
            files[k].0,
        ) matches Ok((v, _, Direction::Down)) && v == (#[trigger] reg[i]).version) implies reg[i].down_sql
        == Some(files[k].1) by {
        assert(spec_parse_filename(files[k].0) is Ok);
        let v = reg[i].version;
        assert(m.contains_key(v));
        assert(reg[i] == entry_migration(v, m[v]));
    }
}

proof fn lemma_built_down_has_file(files: Seq<(Seq<char>, Seq<char>)>, registry: Registry)
    requires
        build_outcome(files, Ok(registry)),
    ensures
        forall|i: int|
            0 <= i < registry@.len() && (#[trigger] registry@[i]).down_sql is Some ==> exists|k: int|
                0 <= k < files.len() && (spec_parse_filename(#[trigger] files[k].0) matches Ok(
                    (v, _, Direction::Down),
                ) && v == registry@[i].version),
{
    lemma_collected_faithfully(files);
    let m = collect_files(files)->Ok_0;
    let reg = registry@;
    assert forall|i: int| 0 <= i < reg.len() && (#[trigger] reg[i]).down_sql is Some implies exists|k: int|
        0 <= k < files.len() && (spec_parse_filename(#[trigger] files[k].0) matches Ok(
            (v, _, Direction::Down),
        ) && v == reg[i].version) by {
        let v = reg[i].version;
        assert(m.contains_key(v));
        assert(reg[i] == entry_migration(v, m[v]));
        assert(half(m[v], Direction::Down) is Some);
        let k = choose|k: int|
            0 <= k < files.len() && spec_parse_filename(#[trigger] files[k].0) is Ok
                && spec_parse_filename(files[k].0)->Ok_0.0 == v
                && spec_parse_filename(files[k].0)->Ok_0.2 == Direction::Down;
        assert(spec_parse_filename(files[k].0) matches Ok((w, _, Direction::Down)) && w == v);
    }
}

proof fn lemma_built_checksums(files: Seq<(Seq<char>, Seq<char>)>, registry: Registry)
    requires
        build_outcome(files, Ok(registry)),
    ensures
        forall|i: int|
            0 <= i < registry@.len() ==> (#[trigger] registry@[i]).up_checksum == spec_checksum(
                registry@[i].up_sql,
            ) && registry@[i].down_checksum == match registry@[i].down_sql {
                Some(sql) => Some(spec_checksum(sql)),
                None => None::<u64>,
            },
{
    lemma_collected_faithfully(files);
    let m = collect_files(files)->Ok_0;
    let reg = registry@;
    assert forall|i: int| 0 <= i < reg.len() implies (#[trigger] reg[i]).up_checksum == spec_checksum(
        reg[i].up_sql,
    ) && reg[i].down_checksum == match reg[i].down_sql {
        Some(sql) => Some(spec_checksum(sql)),
        None => None::<u64>,
    } by {
        let v = reg[i].version;
        assert(m.contains_key(v));
        assert(reg[i] == entry_migration(v, m[v]));
    }
}

/// Building fails when two files claim the same half of one version, such as
/// two up files for version 5 (`0005_seed.up.sql` and `5_seed.up.sql` alike)
/// or two down files.
pub proof fn lemma_duplicate_half_fails(
    files: Seq<(Seq<char>, Seq<char>)>,
    i: int,
    j: int,
    r: Result<Registry, BuildError>,
)
    requires
        build_outcome(files, r),
        0 <= i < j < files.len(),
        spec_parse_filename(files[i].0) is Ok,
        spec_parse_filename(files[j].0) is Ok,
        spec_parse_filename(files[i].0)->Ok_0.0 == spec_parse_filename(files[j].0)->Ok_0.0,
        spec_parse_filename(files[i].0)->Ok_0.2 == spec_parse_filename(files[j].0)->Ok_0.2,
    ensures
        r is Err,
{
    lemma_collected_faithfully(files);
    if let Ok(m) = collect_files(files) {
        assert(collected_faithfully(files, m));
        let (vi, _, di) = spec_parse_filename(files[i].0)->Ok_0;
        let (vj, _, dj) = spec_parse_filename(files[j].0)->Ok_0;
        assert(!(vi == vj && di == dj));
    }
}

/// Building fails when a down file has no up file for its version.
pub proof fn lemma_down_without_up_fails(
    files: Seq<(Seq<char>, Seq<char>)>,
    j: int,
    r: Result<Registry, BuildError>,
)
    requires
        build_outcome(files, r),
        0 <= j < files.len(),
        spec_parse_filename(files[j].0) matches Ok((v, _, Direction::Down)),
        forall|k: int|
            0 <= k < files.len() ==> !(#[trigger] spec_parse_filename(files[k].0) matches Ok(
                (w, _, Direction::Up),
            ) && w == spec_parse_filename(files[j].0)->Ok_0.0),
    ensures
        r is Err,
{
    lemma_collected_faithfully(files);
    if let Ok(m) = collect_files(files) {
        let (v, _, _) = spec_parse_filename(files[j].0)->Ok_0;
        assert(m.contains_key(v));
        if m[v].up is Some {
            assert(half(m[v], Direction::Up) is Some);
            let k = choose|k: int|
                0 <= k < files.len() && spec_parse_filename(#[trigger] files[k].0) is Ok
                    && spec_parse_filename(files[k].0)->Ok_0.0 == v
                    && spec_parse_filename(files[k].0)->Ok_0.2 == Direction::Up;
            assert(spec_parse_filename(files[k].0) matches Ok((w, _, Direction::Up)) && w == v);
        }
        assert(entry_error(v, m[v]) is Some);
        assert(!all_sound(m));
    }
}

/// Building fails when the up and down files of a version disagree on the name.
pub proof fn lemma_name_mismatch_fails(
    files: Seq<(Seq<char>, Seq<char>)>,
    i: int,
    j: int,
    r: Result<Registry, BuildError>,
)
    requires
        build_outcome(files, r),
        0 <= i < files.len(),
        0 <= j < files.len(),
        spec_parse_filename(files[i].0) matches Ok((_, _, Direction::Up)),
        spec_parse_filename(files[j].0) matches Ok((_, _, Direction::Down)),
        spec_parse_filename(files[i].0)->Ok_0.0 == spec_parse_filename(files[j].0)->Ok_0.0,
        spec_parse_filename(files[i].0)->Ok_0.1 != spec_parse_filename(files[j].0)->Ok_0.1,
    ensures
        r is Err,
{
    lemma_collected_faithfully(files);
    if let Ok(m) = collect_files(files) {
        let (v, _, _) = spec_parse_filename(files[i].0)->Ok_0;
        assert(spec_parse_filename(files[i].0) is Ok);
        assert(spec_parse_filename(files[j].0) is Ok);
        assert(m.contains_key(v));
        assert(entry_error(v, m[v]) is Some);
        assert(!all_sound(m));
    }
}

/// Every file parses and no two files claim the same half of one version.
pub open spec fn halves_distinct(files: Seq<(Seq<char>, Seq<char>)>) -> bool {
    &&& forall|k: int| 0 <= k < files.len() ==> (#[trigger] spec_parse_filename(files[k].0)) is Ok
    &&& forall|i: int, j: int|
        0 <= i < j < files.len() ==> {
            let (vi, _, di) = spec_parse_filename(#[trigger] files[i].0)->Ok_0;
            let (vj, _, dj) = spec_parse_filename(#[trigger] files[j].0)->Ok_0;
            !(vi == vj && di == dj)
        }
}

proof fn lemma_distinct_halves_collect(files: Seq<(Seq<char>, Seq<char>)>)
    requires
        halves_distinct(files),
    ensures
        collect_files(files) is Ok,
    decreases files.len(),
{
    if files.len() > 0 {
        let pre = files.drop_last();
        assert(halves_distinct(pre)) by {
            assert forall|k: int| 0 <= k < pre.len() implies (#[trigger] spec_parse_filename(
                pre[k].0,
            )) is Ok by {
                assert(pre[k] == files[k]);
            }
            assert forall|i: int, j: int| 0 <= i < j < pre.len() implies {
                let (vi, _, di) = spec_parse_filename(#[trigger] pre[i].0)->Ok_0;
                let (vj, _, dj) = spec_parse_filename(#[trigger] pre[j].0)->Ok_0;
                !(vi == vj && di == dj)
            } by {
                assert(pre[i] == files[i]);
                assert(pre[j] == files[j]);
            }
        }
        lemma_distinct_halves_collect(pre);
        lemma_collected_faithfully(pre);
        let m0 = collect_files(pre)->Ok_0;
        let last = files.len() - 1;
        assert(spec_parse_filename(files[last].0) is Ok);
        let (v, n, d) = spec_parse_filename(files[last].0)->Ok_0;
        if m0.contains_key(v) && half(m0[v], d) is Some {
            let k = choose|k: int|
                0 <= k < pre.len() && spec_parse_filename(#[trigger] pre[k].0) is Ok
                    && spec_parse_filename(pre[k].0)->Ok_0.0 == v
                    && spec_parse_filename(pre[k].0)->Ok_0.2 == d;
            assert(pre[k] == files[k]);
            let (vk, _, dk) = spec_parse_filename(files[k].0)->Ok_0;
            assert(!(vk == v && dk == d));
        }
        assert(half(entry_or_empty(m0, v), d) is None);
        assert(files.last() == files[last]);
    }
}

/// File `i` is an up file of the same version and name as the down file `j`.
pub open spec fn is_up_partner(files: Seq<(Seq<char>, Seq<char>)>, i: int, j: int) -> bool {
    let (vi, ni, di) = spec_parse_filename(files[i].0)->Ok_0;
    let (vj, nj, _) = spec_parse_filename(files[j].0)->Ok_0;
    0 <= i < files.len() && di == Direction::Up && vi == vj && ni == nj
}

/// File `j`, when it is a down file, has an up file of the same version and name.
pub open spec fn has_up_partner(files: Seq<(Seq<char>, Seq<char>)>, j: int) -> bool {
    spec_parse_filename(files[j].0)->Ok_0.2 == Direction::Down ==> exists|i: int|
        is_up_partner(files, i, j)
}

/// The failures above are all there is: when every filename parses, no two
/// files claim the same half of one version, and every down file has an up file
/// of its version with the same name, the build succeeds.
pub proof fn lemma_sound_files_build(files: Seq<(Seq<char>, Seq<char>)>, r: Result<Registry, BuildError>)
    requires
        build_outcome(files, r),
        halves_distinct(files),
        forall|j: int| 0 <= j < files.len() ==> #[trigger] has_up_partner(files, j),
    ensures
        r is Ok,
{
    lemma_distinct_halves_collect(files);
    lemma_collected_faithfully(files);
    let m = collect_files(files)->Ok_0;
    assert forall|v: u64| #[trigger] m.contains_key(v) implies entry_error(v, m[v]) is None by {
        if m[v].down is Some {
            assert(half(m[v], Direction::Down) is Some);
            let j = choose|j: int|
                0 <= j < files.len() && spec_parse_filename(#[trigger] files[j].0) is Ok
                    && spec_parse_filename(files[j].0)->Ok_0.0 == v
                    && spec_parse_filename(files[j].0)->Ok_0.2 == Direction::Down;
            assert(spec_parse_filename(files[j].0)->Ok_0.2 == Direction::Down);
            assert(has_up_partner(files, j));
            let i = choose|i: int| is_up_partner(files, i, j);
            assert(spec_parse_filename(files[i].0) is Ok);
            assert(spec_parse_filename(files[j].0) is Ok);
        }
    }
    assert(all_sound(m));
}

/// Building fails when a filename does not parse.
pub proof fn lemma_unparsable_file_fails(
    files: Seq<(Seq<char>, Seq<char>)>,
    k: int,
    r: Result<Registry, BuildError>,
)
    requires
        build_outcome(files, r),
        0 <= k < files.len(),
        spec_parse_filename(files[k].0) is Err,
    ensures
        r is Err,
{
    lemma_collected_faithfully(files);
    if let Ok(m) = collect_files(files) {
        assert(spec_parse_filename(files[k].0) is Ok);
    }
}

/// Two files that can both be folded in, one after the other, can be folded in
/// the other way round with the same result.
proof fn lemma_collect_file_commutes(
    m: Map<u64, EntryView>,
    a: (Seq<char>, Seq<char>),
    b: (Seq<char>, Seq<char>),
)
    requires
        collect_file(m, a) is Ok,
        collect_file(collect_file(m, a)->Ok_0, b) is Ok,
    ensures
        collect_file(m, b) is Ok,
        collect_file(collect_file(m, b)->Ok_0, a) == collect_file(collect_file(m, a)->Ok_0, b),
{
    let (va, na, da) = spec_parse_filename(a.0)->Ok_0;
    let (vb, nb, db) = spec_parse_filename(b.0)->Ok_0;
    let m1 = collect_file(m, a)->Ok_0;
    let m2 = collect_file(m1, b)->Ok_0;
    let m3 = collect_file(m, b)->Ok_0;
    if va != vb {
        assert(entry_or_empty(m1, vb) == entry_or_empty(m, vb));
        assert(entry_or_empty(m3, va) == entry_or_empty(m, va));
        assert(collect_file(m3, a)->Ok_0 =~= m2);
    } else {
        assert(collect_file(m3, a)->Ok_0 =~= m2);
    }
}

/// Swapping two neighbouring files does not change what a successful fold collects.
proof fn lemma_collect_swap(files: Seq<(Seq<char>, Seq<char>)>, i: int)
    requires
        0 <= i,
        i + 1 < files.len(),
        collect_files(files) is Ok,
    ensures
        collect_files(swap_adjacent(files, i)) == collect_files(files),
    decreases files.len(),
{
    let swapped = swap_adjacent(files, i);
    if files.len() > i + 2 {
        assert(swapped.drop_last() =~= swap_adjacent(files.drop_last(), i));
        assert(swapped.last() == files.last());
        if collect_files(files.drop_last()) is Err {
            assert(collect_files(files) is Err);
        }
        lemma_collect_swap(files.drop_last(), i);
    } else {
        let prefix = files.drop_last().drop_last();
        assert(swapped.drop_last().drop_last() =~= prefix);
        assert(swapped.last() == files[i]);
        assert(swapped.drop_last().last() == files[i + 1]);
        assert(files.last() == files[i + 1]);
        assert(files.drop_last().last() == files[i]);
        let p = collect_files(prefix);
        if p is Err {
            assert(collect_files(files.drop_last()) is Err);
        } else {
            if collect_file(p->Ok_0, files[i]) is Err {
                assert(collect_files(files.drop_last()) is Err);
            }
            let m = p->Ok_0;
            assert(collect_files(files.drop_last()) == collect_file(m, files[i]));
            lemma_collect_file_commutes(m, files[i], files[i + 1]);
            assert(collect_files(swapped.drop_last()) == collect_file(m, files[i + 1]));
        }
    }
}

/// Listings of the same entries are equal: the ascending order leaves no choice.
pub proof fn lemma_listing_unique(
    m: Map<u64, EntryView>,
    a: Seq<MigrationView>,
    b: Seq<MigrationView>,
)
    requires
        lists_migrations(m, a),
        lists_migrations(m, b),
    ensures
        a == b,
    decreases a.len(),
{
    if a.len() == 0 {
        if b.len() > 0 {
            assert(m.contains_key(b[0].version));
        }
        assert(b =~= a);
    } else {
        assert(m.contains_key(a[0].version));
        let ja = choose|j: int| 0 <= j < b.len() && #[trigger] b[j].version == a[0].version;
        assert(b.len() > 0);
        assert(m.contains_key(b[0].version));
        let jb = choose|j: int| 0 <= j < a.len() && #[trigger] a[j].version == b[0].version;
        if ja > 0 {
            assert(b[0].version < b[ja].version);
        }
        if jb > 0 {
            assert(a[0].version < a[jb].version);
        }
        let v = a[0].version;
        assert(a[0] == b[0]);
        let m2 = m.remove(v);
        let a2 = a.drop_first();
        let b2 = b.drop_first();
        assert forall|i: int, j: int| 0 <= i < j < a2.len() implies #[trigger] a2[i].version
            < #[trigger] a2[j].version by {
            assert(a2[i] == a[i + 1]);
            assert(a2[j] == a[j + 1]);
        }
        assert forall|i: int| 0 <= i < a2.len() implies {
            &&& m2.contains_key(#[trigger] a2[i].version)
            &&& a2[i] == entry_migration(a2[i].version, m2[a2[i].version])
        } by {
            assert(a2[i] == a[i + 1]);
            assert(a[0].version < a[i + 1].version);
        }
        assert forall|k: u64| #[trigger] m2.contains_key(k) implies exists|i: int|
            0 <= i < a2.len() && #[trigger] a2[i].version == k by {
            let j = choose|j: int| 0 <= j < a.len() && #[trigger] a[j].version == k;
            assert(j != 0);
            assert(a2[j - 1].version == k);
        }
        assert forall|i: int, j: int| 0 <= i < j < b2.len() implies #[trigger] b2[i].version
            < #[trigger] b2[j].version by {
            assert(b2[i] == b[i + 1]);
            assert(b2[j] == b[j + 1]);
        }
        assert forall|i: int| 0 <= i < b2.len() implies {
            &&& m2.contains_key(#[trigger] b2[i].version)
            &&& b2[i] == entry_migration(b2[i].version, m2[b2[i].version])
        } by {
            assert(b2[i] == b[i + 1]);
            assert(b[0].version < b[i + 1].version);
        }
        assert forall|k: u64| #[trigger] m2.contains_key(k) implies exists|i: int|
            0 <= i < b2.len() && #[trigger] b2[i].version == k by {
            let j = choose|j: int| 0 <= j < b.len() && #[trigger] b[j].version == k;
            assert(j != 0);
            assert(b2[j - 1].version == k);
        }
        lemma_listing_unique(m2, a2, b2);
        assert(a =~= seq![a[0]] + a2);
        assert(b =~= seq![b[0]] + b2);
    }
}

/// At most one version is the first unsound one.
proof fn lemma_first_unsound_unique(m: Map<u64, EntryView>, v: u64, w: u64)
    requires
        is_first_unsound(m, v),
        is_first_unsound(m, w),
    ensures
        v == w,
{
    if v < w {
        assert(m.contains_key(v) && v < w);
    } else if w < v {
        assert(m.contains_key(w) && w < v);
    }
}

/// The outcome a build is owed depends only on what its files collect:
/// two outcomes owed for the same collection agree.
proof fn lemma_outcome_determined(
    files1: Seq<(Seq<char>, Seq<char>)>,
    files2: Seq<(Seq<char>, Seq<char>)>,
    r1: Result<Registry, BuildError>,
    r2: Result<Registry, BuildError>,
)
    requires
        collect_files(files1) == collect_files(files2),
        build_outcome(files1, r1),
        build_outcome(files2, r2),
    ensures
        r1 is Ok <==> r2 is Ok,
        r1 matches Ok(reg1) ==> reg1@ == r2->Ok_0@,
        r1 matches Err(e1) ==> e1@ == r2->Err_0@,
{
    if let Ok(m) = collect_files(files1) {
        if r1 is Ok && r2 is Ok {
            lemma_listing_unique(m, r1->Ok_0@, r2->Ok_0@);
        }
        if r1 is Err && r2 is Err {
            let v = choose|v: u64| is_first_unsound(m, v) && entry_error(v, m[v]) == Some(r1->Err_0@);
            let w = choose|w: u64| is_first_unsound(m, w) && entry_error(w, m[w]) == Some(r2->Err_0@);
            lemma_first_unsound_unique(m, v, w);
        }
    }
}

/// Moving one file to the end does not change what a successful fold collects.
proof fn lemma_collect_move_to_end(files: Seq<(Seq<char>, Seq<char>)>, j: int)
    requires
        0 <= j < files.len(),
        collect_files(files) is Ok,
    ensures
        collect_files(files.remove(j).push(files[j])) == collect_files(files),
    decreases files.len() - j,
{
    if j == files.len() - 1 {
        assert(files.remove(j).push(files[j]) =~= files);
    } else {
        let swapped = swap_adjacent(files, j);
        lemma_collect_swap(files, j);
        lemma_collect_move_to_end(swapped, j + 1);
        assert(swapped.remove(j + 1).push(swapped[j + 1]) =~= files.remove(j).push(files[j]));
    }
}

/// Any reordering of the files collects the same entries, when the fold succeeds.
proof fn lemma_collect_permutation(
    files: Seq<(Seq<char>, Seq<char>)>,
    other: Seq<(Seq<char>, Seq<char>)>,
)
    requires
        files.to_multiset() == other.to_multiset(),
        collect_files(files) is Ok,
    ensures
        collect_files(other) == collect_files(files),
    decreases files.len(),
{
    broadcast use vstd::seq_lib::group_to_multiset_ensures;

    files.to_multiset_ensures();
    other.to_multiset_ensures();
    if other.len() == 0 {
        assert(files.len() == 0);
        assert(files =~= other);
    } else {
        let x = other.last();
        assert(other.contains(x)) by {
            assert(other[other.len() - 1] == x);
        }
        assert(other.to_multiset().count(x) > 0);
        assert(files.contains(x));
        let j = choose|j: int| 0 <= j < files.len() && files[j] == x;
        let moved = files.remove(j).push(x);
        lemma_collect_move_to_end(files, j);
        assert(moved.drop_last() =~= files.remove(j));
        assert(moved.last() == x);
        if collect_files(moved.drop_last()) is Err {
            assert(collect_files(moved) is Err);
        }
        assert(other.drop_last() =~= other.remove(other.len() - 1));
        assert(files.remove(j).to_multiset() =~= files.to_multiset().remove(x));
        assert(other.drop_last().to_multiset() =~= other.to_multiset().remove(x));
        lemma_collect_permutation(files.remove(j), other.drop_last());
    }
}

/// Files are matched into up/down pairs by version, not by input order: any
/// reordering of the files builds successfully exactly when the original order
/// does, and then gives the same registry; and when every file can be folded
/// in, a failing build fails with the same error in any order.
pub proof fn lemma_build_ignores_file_order(
    files: Seq<(Seq<char>, Seq<char>)>,
    other: Seq<(Seq<char>, Seq<char>)>,
    r1: Result<Registry, BuildError>,
    r2: Result<Registry, BuildError>,
)
    requires
        files.to_multiset() == other.to_multiset(),
        build_outcome(files, r1),
        build_outcome(other, r2),
    ensures
        r1 is Ok <==> r2 is Ok,
        r1 matches Ok(reg1) ==> reg1@ == r2->Ok_0@,
        collect_files(files) is Ok ==> (r1 matches Err(e1) ==> e1@ == r2->Err_0@),
{
    if collect_files(files) is Ok {
        lemma_collect_permutation(files, other);
        lemma_outcome_determined(files, other, r1, r2);
    } else if collect_files(other) is Ok {
        lemma_collect_permutation(other, files);
    }
}

proof fn lemma_first_unsound(keys: Seq<u64>, m: Map<u64, EntryView>, k: int)
    requires
        ascending_keys_of(keys, m),
        0 <= k < keys.len(),
        forall|i: int| 0 <= i < k ==> entry_error(keys[i], #[trigger] m[keys[i]]) is None,
        entry_error(keys[k], m[keys[k]]) is Some,
    ensures
        is_first_unsound(m, keys[k]),
{
    assert forall|w: u64| #[trigger] m.contains_key(w) && w < keys[k] implies entry_error(w, m[w])
        is None by {
        assert(keys.contains(w));
        let j = choose|j: int| 0 <= j < keys.len() && keys[j] == w;
        if j >= k {
            if j > k {
                assert(keys[k] < keys[j]);
            }
        }
        assert(entry_error(keys[j], m[keys[j]]) is None);
    }
}

proof fn lemma_listing(keys: Seq<u64>, m: Map<u64, EntryView>, migrations: Seq<MigrationView>)
    requires
        ascending_keys_of(keys, m),
        migrations.len() == keys.len(),
        forall|i: int| 0 <= i < keys.len() ==> entry_error(keys[i], #[trigger] m[keys[i]]) is None,
        forall|i: int|
            0 <= i < keys.len() ==> #[trigger] migrations[i] == entry_migration(keys[i], m[keys[i]]),
    ensures
        all_sound(m),
        lists_migrations(m, migrations),
{
    assert forall|v: u64| #[trigger] m.contains_key(v) implies entry_error(v, m[v]) is None by {
        assert(keys.contains(v));
        let j = choose|j: int| 0 <= j < keys.len() && keys[j] == v;
        assert(entry_error(keys[j], m[keys[j]]) is None);
    }
    assert forall|i: int, j: int| 0 <= i < j < migrations.len() implies #[trigger] migrations[i].version
        < #[trigger] migrations[j].version by {
        assert(migrations[i].version == keys[i]);
        assert(migrations[j].version == keys[j]);
        assert(keys[i] < keys[j]);
    }
    assert forall|i: int| 0 <= i < migrations.len() implies {
        &&& m.contains_key(#[trigger] migrations[i].version)
        &&& migrations[i] == entry_migration(migrations[i].version, m[migrations[i].version])
    } by {
        assert(migrations[i].version == keys[i]);
        assert(m.contains_key(keys[i]));
    }
    assert forall|v: u64| #[trigger] m.contains_key(v) implies exists|i: int|
        0 <= i < migrations.len() && #[trigger] migrations[i].version == v by {
        assert(keys.contains(v));
        let j = choose|j: int| 0 <= j < keys.len() && keys[j] == v;
        assert(migrations[j].version == keys[j]);
    }
}

proof fn lemma_collect_stops(files: Seq<(Seq<char>, Seq<char>)>, k: int)
    requires
        0 <= k <= files.len(),
        collect_files(files.take(k)) is Err,
    ensures
        collect_files(files) == collect_files(files.take(k)),
    decreases files.len() - k,
{
    if k < files.len() {
        assert(files.take(k + 1).drop_last() =~= files.take(k));
        lemma_collect_stops(files, k + 1);
    } else {
        assert(files.take(k) =~= files);
    }
}

} // verus!
