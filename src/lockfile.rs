//! Lock-file snapshots: package records keyed by normalized name.
use vstd::prelude::*;

verus! {

/// What `str::to_lowercase` makes of a string.
pub uninterp spec fn lower_of(s: Seq<char>) -> Seq<char>;

/// Relies on `str::to_lowercase`: the result depends on the characters alone.
#[verifier::external_body]
pub(crate) fn to_lower(s: &str) -> (r: String)
    ensures
        r@ == lower_of(s@),
{
    s.to_lowercase()
}

/// `s` with every `-` and `.` replaced by `_`.
pub open spec fn separators_replaced(s: Seq<char>) -> Seq<char> {
    s.map_values(|c: char| if c == '-' || c == '.' { '_' } else { c })
}

/// Relies on `regex::Regex::replace_all` with the pattern `[-.]`: each match is a
/// single `-` or `.`, and each is replaced by the literal `_`.
#[verifier::external_body]
fn replace_separators(name: &str) -> (r: String)
    ensures
        r@ == separators_replaced(name@),
{
    regex::Regex::new(r"[-.]").unwrap().replace_all(name, "_").into_owned()
}

/// The key under which a package is matched across snapshots.
pub open spec fn normalized(name: Seq<char>) -> Seq<char> {
    lower_of(separators_replaced(name))
}

/// Lower-cases a package name and replaces `-` and `.` by `_`.
pub fn normalize_name(name: &str) -> (r: String)
    ensures
        r@ == normalized(name@),
{
    let replaced = replace_separators(name);
    to_lower(replaced.as_str())
}

/// One package of a lock file: its name as written and its version string.
#[derive(Debug, Clone, PartialEq, Eq)]
pub struct LockedPackage {
    pub name: String,
    pub version: String,
}

impl View for LockedPackage {
    type V = (Seq<char>, Seq<char>);

    open spec fn view(&self) -> (Seq<char>, Seq<char>) {
        (self.name@, self.version@)
    }
}

/// An entry of a snapshot, as a model: key, display name, version.
pub type EntryView = (Seq<char>, Seq<char>, Seq<char>);

/// The record stored under `key`, if any (the first one, should a key repeat).
pub open spec fn lookup(entries: Seq<EntryView>, key: Seq<char>) -> Option<(Seq<char>, Seq<char>)>
    decreases entries.len(),
{
    if entries.len() == 0 {
        None
    } else if entries[0].0 == key {
        Some((entries[0].1, entries[0].2))
    } else {
        lookup(entries.drop_first(), key)
    }
}

/// No key occurs twice.
pub open spec fn distinct_keys(entries: Seq<EntryView>) -> bool {
    forall|i: int, j: int| 0 <= i < j < entries.len() ==> entries[i].0 != entries[j].0
}

/// The model of stored entries.
closed spec fn entries_view(v: Seq<(String, LockedPackage)>) -> Seq<EntryView> {
    v.map_values(|e: (String, LockedPackage)| (e.0@, e.1.name@, e.1.version@))
}

/// The packages of one lock file, keyed by normalized name, in insertion order.
/// The entries are held in a `Vec` with distinct keys: vstd specifies `HashMap`
/// only for keys whose hashing it models, which `String` is not among.
#[derive(Debug)]
pub struct Snapshot {
    entries: Vec<(String, LockedPackage)>,
}

impl Snapshot {
    /// No key occurs twice.
    #[verifier::type_invariant]
    closed spec fn keys_unique(&self) -> bool {
        distinct_keys(self@)
    }
}

impl View for Snapshot {
    type V = Seq<EntryView>;

    closed spec fn view(&self) -> Seq<EntryView> {
        entries_view(self.entries@)
    }
}


/// `lookup` finds the first entry whose key matches.
pub proof fn lemma_lookup_first(entries: Seq<EntryView>, key: Seq<char>, j: int)
    requires
        0 <= j < entries.len(),
        entries[j].0 == key,
        forall|i: int| 0 <= i < j ==> entries[i].0 != key,
    ensures
        lookup(entries, key) == Some((entries[j].1, entries[j].2)),
    decreases j,
{
    if j > 0 {
        lemma_lookup_first(entries.drop_first(), key, j - 1);
    }
}

/// `lookup` finds nothing where no key matches.
pub proof fn lemma_lookup_absent(entries: Seq<EntryView>, key: Seq<char>)
    requires
        forall|i: int| 0 <= i < entries.len() ==> entries[i].0 != key,
    ensures
        lookup(entries, key) is None,
    decreases entries.len(),
{
    if entries.len() > 0 {
        lemma_lookup_absent(entries.drop_first(), key);
    }
}

impl Snapshot {
    /// An empty snapshot.
    pub fn new() -> (r: Snapshot)
        ensures
            r@ == Seq::<EntryView>::empty(),
    {
        Snapshot { entries: Vec::new() }
    }

    /// The number of packages.
    pub fn len(&self) -> (r: usize)
        ensures
            r == self@.len(),
    {
        self.entries.len()
    }

    /// Whether the snapshot holds no package.
    pub fn is_empty(&self) -> (r: bool)
        ensures
            r == (self@.len() == 0),
    {
        self.entries.len() == 0
    }

    /// The key of entry `i`.
    pub fn key_at(&self, i: usize) -> (r: &String)
        requires
            i < self@.len(),
        ensures
            r@ == self@[i as int].0,
    {
        &self.entries[i].0
    }

    /// The record of entry `i`.
    pub fn package_at(&self, i: usize) -> (r: &LockedPackage)
        requires
            i < self@.len(),
        ensures
            r.name@ == self@[i as int].1,
            r.version@ == self@[i as int].2,
    {
        &self.entries[i].1
    }

    /// The position of the first entry under `key`.
    pub fn position(&self, key: &String) -> (r: Option<usize>)
        ensures
            match r {
                Some(j) => j < self@.len() && self@[j as int].0 == key@ && forall|i: int|
                    0 <= i < j ==> self@[i].0 != key@,
                None => forall|i: int| 0 <= i < self@.len() ==> self@[i].0 != key@,
            },
            match r {
                Some(j) => lookup(self@, key@) == Some((self@[j as int].1, self@[j as int].2)),
                None => lookup(self@, key@) is None,
            },
    {
        let mut i: usize = 0;
        while i < self.entries.len()
            invariant
                i <= self@.len(),
                self@.len() == self.entries@.len(),
                forall|k: int| 0 <= k < i ==> self@[k].0 != key@,
            decreases self.entries.len() - i,
        {
            if self.entries[i].0 == *key {
                proof {
                    lemma_lookup_first(self@, key@, i as int);
                }
                return Some(i);
            }
            i += 1;
        }
        proof {
            lemma_lookup_absent(self@, key@);
        }
        None
    }

    /// The record stored under `key`, if any.
    pub fn get(&self, key: &str) -> (r: Option<&LockedPackage>)
        ensures
            match r {
                Some(p) => lookup(self@, key@) == Some((p.name@, p.version@)),
                None => lookup(self@, key@) is None,
            },
    {
        let k = key.to_owned();
        match self.position(&k) {
            Some(j) => Some(&self.entries[j].1),
            None => None,
        }
    }

    /// Whether a record is stored under `key`.
    pub fn contains_key(&self, key: &str) -> (r: bool)
        ensures
            r == (lookup(self@, key@) is Some),
    {
        let k = key.to_owned();
        self.position(&k).is_some()
    }

    /// Stores `package` under `key`, replacing the record that was there.
    pub fn insert(&mut self, key: String, package: LockedPackage)
        ensures
            lookup(final(self)@, key@) == Some((package.name@, package.version@)),
            forall|k: Seq<char>| k != key@ ==> lookup(final(self)@, k) == lookup(old(self)@, k),
            distinct_keys(final(self)@),
            forall|i: int|
                0 <= i < final(self)@.len() ==> #[trigger] final(self)@[i] == (
                    key@,
                    package.name@,
                    package.version@,
                ) || old(self)@.contains(final(self)@[i]),
    {
        proof {
            use_type_invariant(&*self);
        }
        let ghost before = self@;
        let ghost kv = key@;
        let ghost item = (key@, package.name@, package.version@);
        let pos = self.position(&key);
        let mut entries: Vec<(String, LockedPackage)> = Vec::new();
        std::mem::swap(&mut entries, &mut self.entries);
        assert(entries_view(entries@) == before);
        match pos {
            Some(j) => {
                entries.set(j, (key, package));
                proof {
                    let after = entries_view(entries@);
                    assert(after =~= before.update(j as int, item));
                    assert forall|i: int| 0 <= i < after.len() && i != j implies before.contains(
                        #[trigger] after[i],
                    ) by {
                        assert(after[i] == before[i]);
                    }
                    lemma_lookup_first(after, kv, j as int);
                    assert forall|k: Seq<char>| k != kv implies lookup(after, k) == lookup(
                        before,
                        k,
                    ) by {
                        lemma_lookup_update(before, j as int, item, k);
                    }
                }
            },
            None => {
                entries.push((key, package));
                proof {
                    let after = entries_view(entries@);
                    assert(after =~= before.push(item));
                    assert forall|i: int| 0 <= i < before.len() implies before.contains(
                        #[trigger] after[i],
                    ) by {
                        assert(after[i] == before[i]);
                    }
                    lemma_lookup_first(after, kv, before.len() as int);
                    assert forall|k: Seq<char>| k != kv implies lookup(after, k) == lookup(
                        before,
                        k,
                    ) by {
                        lemma_lookup_push(before, item, k);
                    }
                }
            },
        }
        self.entries = entries;
    }
}

/// Replacing an entry leaves the lookup of other keys alone, where both the old and
/// the new entry have a key other than `k`.
proof fn lemma_lookup_update(entries: Seq<EntryView>, j: int, item: EntryView, k: Seq<char>)
    requires
        0 <= j < entries.len(),
        entries[j].0 == item.0,
        item.0 != k,
    ensures
        lookup(entries.update(j, item), k) == lookup(entries, k),
    decreases entries.len(),
{
    if j > 0 {
        lemma_lookup_update(entries.drop_first(), j - 1, item, k);
        assert(entries.update(j, item).drop_first() =~= entries.drop_first().update(j - 1, item));
    } else {
        assert(entries.update(j, item).drop_first() =~= entries.drop_first());
    }
}

/// Appending an entry under another key leaves the lookup of `k` alone.
proof fn lemma_lookup_push(entries: Seq<EntryView>, item: EntryView, k: Seq<char>)
    requires
        item.0 != k,
    ensures
        lookup(entries.push(item), k) == lookup(entries, k),
    decreases entries.len(),
{
    if entries.len() > 0 {
        lemma_lookup_push(entries.drop_first(), item, k);
        assert(entries.push(item).drop_first() =~= entries.drop_first().push(item));
    } else {
        assert(entries.push(item).drop_first() =~= entries);
    }
}


#[verifier::external_type_specification]
#[verifier::external_body]
pub struct ExTomlError(toml::de::Error);

/// A table of the `package` array as a model: its `name` and its `version`, each
/// where it is a string.
pub type TableView = (Option<Seq<char>>, Option<Seq<char>>);

/// What the TOML parser reads from a lock file: `None` where the text is not a
/// TOML document, `Some(None)` where the document has no array `package`, and
/// otherwise the `name` and `version` of each table of that array.
pub uninterp spec fn toml_package_tables(s: Seq<char>) -> Option<Option<Seq<TableView>>>;

/// The view of an optional string.
pub open spec fn text_of(o: Option<String>) -> Option<Seq<char>> {
    match o {
        Some(s) => Some(s@),
        None => None,
    }
}

/// The views of the tables.
pub open spec fn tables_view(v: Seq<(Option<String>, Option<String>)>) -> Seq<TableView> {
    v.map_values(|t: (Option<String>, Option<String>)| (text_of(t.0), text_of(t.1)))
}

/// Relies on `toml::from_str` read as a `toml::Value`, then `Value::get("package")`
/// and `Value::as_array`, and for each table `Value::get` and `Value::as_str` of
/// `name` and `version`: the parser depends on the text alone.
#[verifier::external_body]
fn read_package_tables(content: &str) -> (r: Result<
    Option<Vec<(Option<String>, Option<String>)>>,
    toml::de::Error,
>)
    ensures
        match r {
            Err(_) => toml_package_tables(content@) is None,
            Ok(None) => toml_package_tables(content@) == Some(None::<Seq<TableView>>),
            Ok(Some(v)) => toml_package_tables(content@) == Some(Some(tables_view(v@))),
        },
{
    let doc: toml::Value = toml::from_str(content)?;
    let field = |t: &toml::Value, k: &str| t.get(k).and_then(|v| v.as_str()).map(|s| s.to_owned());
    Ok(doc.get("package").and_then(|p| p.as_array()).map(
        |a| a.iter().map(|t| (field(t, "name"), field(t, "version"))).collect(),
    ))
}

/// Why a lock file could not be read into a snapshot.
#[derive(Debug)]
pub enum LockfileError {
    /// The text is not a TOML document.
    Malformed(toml::de::Error),
    /// A package entry has no string `name`.
    MissingName,
    /// A package entry has no string `version`.
    MissingVersion,
}

/// Each entry is stored under the normalized form of its display name.
pub open spec fn keyed_by_normalized_name(entries: Seq<EntryView>) -> bool {
    forall|i: int| 0 <= i < entries.len() ==> #[trigger] entries[i].0 == normalized(entries[i].1)
}

/// A table has both fields.
pub open spec fn complete(t: TableView) -> bool {
    t.0 is Some && t.1 is Some
}

/// The name and version of the last table whose normalized name is `key`.
pub open spec fn last_with_key(tables: Seq<TableView>, key: Seq<char>) -> Option<(Seq<char>, Seq<char>)>
    decreases tables.len(),
{
    if tables.len() == 0 {
        None
    } else {
        let t = tables.last();
        match (t.0, t.1) {
            (Some(name), Some(version)) => if normalized(name) == key {
                Some((name, version))
            } else {
                last_with_key(tables.drop_last(), key)
            },
            _ => last_with_key(tables.drop_last(), key),
        }
    }
}

/// What a snapshot built from `tables` is: at the first table that lacks a field,
/// `MissingName` where it lacks `name`, else `MissingVersion`; where every table is
/// complete, the snapshot that holds under each key the last table of that key.
pub open spec fn built_from(tables: Seq<TableView>, r: Result<Snapshot, LockfileError>) -> bool {
    match r {
        Ok(s) => (forall|i: int| 0 <= i < tables.len() ==> complete(#[trigger] tables[i]))
            && (forall|k: Seq<char>| #[trigger] lookup(s@, k) == last_with_key(tables, k))
            && keyed_by_normalized_name(s@) && distinct_keys(s@),
        Err(e) => exists|i: int|
            0 <= i < tables.len() && !complete(#[trigger] tables[i]) && (forall|j: int|
                0 <= j < i ==> complete(tables[j])) && match e {
                LockfileError::MissingName => tables[i].0 is None,
                LockfileError::MissingVersion => tables[i].0 is Some,
                LockfileError::Malformed(_) => false,
            },
    }
}

/// Builds a snapshot from the `name` and `version` of each package table: each
/// record is stored under its normalized name, a later table replacing an earlier
/// one of the same key. A table without either field fails the whole build.
pub fn snapshot_from_tables(tables: &Vec<(Option<String>, Option<String>)>) -> (r: Result<
    Snapshot,
    LockfileError,
>)
    ensures
        built_from(tables_view(tables@), r),
{
    let ghost tv = tables_view(tables@);
    let mut packages = Snapshot::new();
    let mut i: usize = 0;
    while i < tables.len()
        invariant
            i <= tables@.len(),
            tv == tables_view(tables@),
            keyed_by_normalized_name(packages@),
            distinct_keys(packages@),
            forall|j: int| 0 <= j < i ==> complete(#[trigger] tv[j]),
            forall|k: Seq<char>| #[trigger] lookup(packages@, k) == last_with_key(tv.take(i as int), k),
        decreases tables.len() - i,
    {
        let ghost t = tv[i as int];
        proof {
            assert(tv.take(i + 1).drop_last() =~= tv.take(i as int));
            assert(tv.take(i + 1).last() == t);
        }
        let name = match &tables[i].0 {
            Some(n) => n.clone(),
            None => {
                assert(!complete(tv[i as int]));
                return Err(LockfileError::MissingName);
            },
        };
        let version = match &tables[i].1 {
            Some(v) => v.clone(),
            None => {
                assert(!complete(tv[i as int]));
                return Err(LockfileError::MissingVersion);
            },
        };
        let key = normalize_name(name.as_str());
        let ghost before = packages@;
        packages.insert(key, LockedPackage { name, version });
        proof {
            assert forall|j: int| 0 <= j < packages@.len() implies #[trigger] packages@[j].0
                == normalized(packages@[j].1) by {
                if before.contains(packages@[j]) {
                    let k = choose|k: int| 0 <= k < before.len() && before[k] == packages@[j];
                    assert(before[k].0 == normalized(before[k].1));
                }
            }
            assert forall|k: Seq<char>| #[trigger] lookup(packages@, k) == last_with_key(
                tv.take(i + 1),
                k,
            ) by {
                assert(lookup(before, k) == last_with_key(tv.take(i as int), k));
            }
        }
        i += 1;
    }
    proof {
        assert(tv.take(i as int) =~= tv);
    }
    Ok(packages)
}

/// Reads the packages of a lock file: a text that is not TOML is `Malformed`; a
/// document without the array `package` gives an empty snapshot; otherwise the
/// snapshot is built from the tables of that array.
pub fn parse_lockfile(content: &str) -> (r: Result<Snapshot, LockfileError>)
    ensures
        (toml_package_tables(content@) is None) == (r matches Err(LockfileError::Malformed(_))),
        match toml_package_tables(content@) {
            None => true,
            Some(None) => (r matches Ok(s) && s@.len() == 0),
            Some(Some(t)) => built_from(t, r),
        },
{
    match read_package_tables(content) {
        Err(e) => Err(LockfileError::Malformed(e)),
        Ok(None) => Ok(Snapshot::new()),
        Ok(Some(tables)) => snapshot_from_tables(&tables),
    }
}

} // verus!
