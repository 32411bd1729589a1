//! Comparison of two snapshots: which packages changed version, and whether
//! each change is breaking.
use crate::lockfile::{lookup, lower_of, to_lower, EntryView, LockedPackage, Snapshot};
use crate::version::{breaking, is_breaking, pep440_parse, InvalidVersion, Version};
use vstd::prelude::*;

verus! {

/// A package whose version differs between the two snapshots.
#[derive(Debug, Clone, PartialEq, Eq)]
pub struct VersionBump {
    pub package_name: String,
    pub old_version: String,
    pub new_version: String,
    pub is_breaking: bool,
}

/// A bump as a model: name, old version, new version, breaking.
pub type BumpView = (Seq<char>, Seq<char>, Seq<char>, bool);

impl View for VersionBump {
    type V = BumpView;

    open spec fn view(&self) -> BumpView {
        (self.package_name@, self.old_version@, self.new_version@, self.is_breaking)
    }
}

/// `a` does not come after `b`, comparing characters from position `i` on.
pub open spec fn lex_le_from(a: Seq<char>, b: Seq<char>, i: nat) -> bool
    decreases a.len() - i,
{
    if i >= a.len() {
        true
    } else if i >= b.len() {
        false
    } else if (a[i as int] as u32) != (b[i as int] as u32) {
        (a[i as int] as u32) < (b[i as int] as u32)
    } else {
        lex_le_from(a, b, i + 1)
    }
}

/// Lexicographic order on character sequences, the order of `str`'s `Ord`.
pub open spec fn lex_le(a: Seq<char>, b: Seq<char>) -> bool {
    lex_le_from(a, b, 0)
}

/// The bumps are in ascending order of their lower-cased names.
pub open spec fn sorted_by_name(bumps: Seq<BumpView>) -> bool {
    forall|i: int, j: int|
        0 <= i < j < bumps.len() ==> lex_le(lower_of(bumps[i].0), lower_of(bumps[j].0))
}

proof fn lemma_lex_total(a: Seq<char>, b: Seq<char>, i: nat)
    ensures
        lex_le_from(a, b, i) || lex_le_from(b, a, i),
    decreases a.len() - i,
{
    if i < a.len() && i < b.len() && (a[i as int] as u32) == (b[i as int] as u32) {
        lemma_lex_total(a, b, i + 1);
    }
}

proof fn lemma_lex_trans(a: Seq<char>, b: Seq<char>, c: Seq<char>, i: nat)
    requires
        lex_le_from(a, b, i),
        lex_le_from(b, c, i),
    ensures
        lex_le_from(a, c, i),
    decreases a.len() - i,
{
    if i < a.len() && i < b.len() && i < c.len() && (a[i as int] as u32) == (b[i as int] as u32)
        && (b[i as int] as u32) == (c[i as int] as u32) {
        lemma_lex_trans(a, b, c, i + 1);
    }
}

/// Decides `lex_le`.
fn lex_le_exec(a: &Vec<char>, b: &Vec<char>) -> (r: bool)
    ensures
        r == lex_le(a@, b@),
{
    let mut i: usize = 0;
    while i < a.len() && i < b.len() && (a[i] as u32) == (b[i] as u32)
        invariant
            i <= a@.len(),
            i <= b@.len(),
            lex_le_from(a@, b@, 0) == lex_le_from(a@, b@, i as nat),
        decreases a.len() - i,
    {
        i += 1;
    }
    if i >= a.len() {
        true
    } else if i >= b.len() {
        false
    } else {
        (a[i] as u32) < (b[i] as u32)
    }
}

/// Relies on `str::chars`, collected: the characters of `s` in order.
#[verifier::external_body]
pub(crate) fn chars_of(s: &str) -> (r: Vec<char>)
    ensures
        r@ == s@,
{
    s.chars().collect()
}

/// Inserts `item` after every element whose key does not come after `key`, which
/// keeps `keys` sorted and elements of equal keys in arrival order.
fn insert_sorted(
    keys: &mut Vec<Vec<char>>,
    items: &mut Vec<VersionBump>,
    key: Vec<char>,
    item: VersionBump,
)
    requires
        old(keys)@.len() == old(items)@.len(),
        key@ == lower_of(item.package_name@),
        forall|j: int|
            0 <= j < old(keys)@.len() ==> #[trigger] old(keys)@[j]@ == lower_of(
                old(items)@[j].package_name@,
            ),
        forall|x: int, y: int|
            0 <= x < y < old(keys)@.len() ==> lex_le(old(keys)@[x]@, old(keys)@[y]@),
    ensures
        final(keys)@.len() == final(items)@.len(),
        forall|j: int|
            0 <= j < final(keys)@.len() ==> #[trigger] final(keys)@[j]@ == lower_of(
                final(items)@[j].package_name@,
            ),
        forall|x: int, y: int|
            0 <= x < y < final(keys)@.len() ==> lex_le(final(keys)@[x]@, final(keys)@[y]@),
        final(items)@.map_values(|b: VersionBump| b@).to_multiset() == old(
            items,
        )@.map_values(|b: VersionBump| b@).to_multiset().insert(item@),
{
    let mut p: usize = 0;
    while p < keys.len() && lex_le_exec(&keys[p], &key)
        invariant
            p <= keys@.len(),
            forall|x: int| 0 <= x < p ==> lex_le(#[trigger] keys@[x]@, key@),
            forall|x: int, y: int| 0 <= x < y < keys@.len() ==> lex_le(keys@[x]@, keys@[y]@),
        decreases keys.len() - p,
    {
        p += 1;
    }
    let ghost old_keys = keys@;
    let ghost old_items = items@;
    let ghost kv = key@;
    let ghost iv = item@;
    proof {
        if p < old_keys.len() {
            lemma_lex_total(old_keys[p as int]@, kv, 0);
        }
    }
    keys.insert(p, key);
    items.insert(p, item);
    proof {
        assert forall|y: int| p < y < keys@.len() implies lex_le(kv, #[trigger] keys@[y]@) by {
            assert(keys@[y] == old_keys[y - 1]);
            if y - 1 > p {
                assert(lex_le(kv, old_keys[p as int]@));
                assert(lex_le(old_keys[p as int]@, old_keys[y - 1]@));
                lemma_lex_trans(kv, old_keys[p as int]@, old_keys[y - 1]@, 0);
            }
        }
        assert forall|x: int, y: int| 0 <= x < y < keys@.len() implies lex_le(
            keys@[x]@,
            keys@[y]@,
        ) by {
            if x < p && y > p {
                lemma_lex_trans(keys@[x]@, kv, keys@[y]@, 0);
            } else if x > p {
                assert(keys@[x] == old_keys[x - 1] && keys@[y] == old_keys[y - 1]);
            }
        }
        assert(items@.map_values(|b: VersionBump| b@) =~= old_items.map_values(
            |b: VersionBump| b@,
        ).insert(p as int, iv));
        vstd::seq_lib::to_multiset_insert(
            old_items.map_values(|b: VersionBump| b@),
            p as int,
            iv,
        );
    }
}


/// A changed package as a model: display name, old version, new version.
pub type ChangeView = (Seq<char>, Seq<char>, Seq<char>);

/// The changes from `old` to `new`, in the order of `old`: each entry of `old`
/// whose key `new` holds too, with another version string.
pub open spec fn changes(old: Seq<EntryView>, new: Seq<EntryView>) -> Seq<ChangeView>
    decreases old.len(),
{
    if old.len() == 0 {
        Seq::empty()
    } else {
        let rest = changes(old.drop_last(), new);
        let e = old.last();
        match lookup(new, e.0) {
            Some(n) => if n.1 != e.2 {
                rest.push((e.1, e.2, n.1))
            } else {
                rest
            },
            None => rest,
        }
    }
}

/// The release segments that pep440_rs reads from `s` (empty where it fails).
pub open spec fn release_of(s: Seq<char>) -> Seq<u64> {
    match pep440_parse(s) {
        Some(p) => p.1,
        None => Seq::empty(),
    }
}

/// Both version strings parse.
pub open spec fn both_parse(old: Seq<char>, new: Seq<char>) -> bool {
    pep440_parse(old) is Some && pep440_parse(new) is Some
}

/// `e` is the first of the two version strings that does not parse, the old one
/// being tried first.
pub open spec fn first_rejected(old: Seq<char>, new: Seq<char>, e: Seq<char>) -> bool {
    (pep440_parse(old) is None && e == old) || (pep440_parse(old) is Some && pep440_parse(new)
        is None && e == new)
}

/// Both versions of a change parse.
pub open spec fn parses(c: ChangeView) -> bool {
    both_parse(c.1, c.2)
}

/// The bump that a change becomes.
pub open spec fn classified(c: ChangeView) -> BumpView {
    (c.0, c.1, c.2, breaking(release_of(c.1), release_of(c.2)))
}

/// What the comparison owes on success: every change as a bump, in ascending
/// order of lower-cased names.
pub open spec fn compared(old: Seq<EntryView>, new: Seq<EntryView>, bumps: Seq<BumpView>) -> bool {
    &&& forall|k: int| 0 <= k < changes(old, new).len() ==> parses(#[trigger] changes(old, new)[k])
    &&& bumps.to_multiset() == changes(old, new).map_values(|c: ChangeView| classified(c)).to_multiset()
    &&& sorted_by_name(bumps)
}

/// `e` is the version of change `c` that fails to parse.
pub open spec fn rejects(c: ChangeView, e: Seq<char>) -> bool {
    first_rejected(c.1, c.2, e)
}

/// Whether moving from `old_version` to `new_version` is a breaking bump; fails on
/// the first of the two that does not parse.
pub fn is_breaking_bump(old_version: &str, new_version: &str) -> (r: Result<bool, InvalidVersion>)
    ensures
        match r {
            Ok(b) => both_parse(old_version@, new_version@) && b == breaking(
                release_of(old_version@),
                release_of(new_version@),
            ),
            Err(e) => first_rejected(old_version@, new_version@, e.input@),
        },
{
    let old_v = match Version::parse(old_version) {
        Ok(v) => v,
        Err(e) => return Err(e),
    };
    let new_v = match Version::parse(new_version) {
        Ok(v) => v,
        Err(e) => return Err(e),
    };
    Ok(is_breaking(&old_v, &new_v))
}

/// The changes of a prefix of `old` are a prefix of the changes of `old`.
proof fn lemma_changes_prefix(old: Seq<EntryView>, new: Seq<EntryView>, i: int)
    requires
        0 <= i <= old.len(),
    ensures
        changes(old.take(i), new).len() <= changes(old, new).len(),
        forall|k: int|
            0 <= k < changes(old.take(i), new).len() ==> #[trigger] changes(old.take(i), new)[k]
                == changes(old, new)[k],
    decreases old.len(),
{
    if i == old.len() {
        assert(old.take(i) =~= old);
    } else {
        lemma_changes_prefix(old.drop_last(), new, i);
        assert(old.drop_last().take(i) =~= old.take(i));
    }
}

/// Compares two snapshots. Each package of `old` whose key `new` also holds with
/// another version string becomes one bump, named as in `old`; the bumps come
/// sorted by lower-cased name.
/// Fails where a version that changed does not parse.
pub fn compare_packages(old_packages: &Snapshot, new_packages: &Snapshot) -> (r: Result<
    Vec<VersionBump>,
    InvalidVersion,
>)
    ensures
        match r {
            Ok(bumps) => compared(
                old_packages@,
                new_packages@,
                bumps@.map_values(|b: VersionBump| b@),
            ),
            Err(e) => exists|k: int|
                0 <= k < changes(old_packages@, new_packages@).len() && rejects(
                    #[trigger] changes(old_packages@, new_packages@)[k],
                    e.input@,
                ),
        },
{
    let ghost old_m = old_packages@;
    let ghost new_m = new_packages@;
    let mut bumps: Vec<VersionBump> = Vec::new();
    let mut keys: Vec<Vec<char>> = Vec::new();
    let mut i: usize = 0;
    proof {
        assert(old_m.take(0) =~= Seq::<EntryView>::empty());
        assert(bumps@.map_values(|b: VersionBump| b@) =~= Seq::<BumpView>::empty());
        assert(changes(old_m.take(0), new_m).map_values(|c: ChangeView| classified(c))
            =~= Seq::<BumpView>::empty());
    }
    while i < old_packages.len()
        invariant
            i <= old_m.len(),
            old_m == old_packages@,
            new_m == new_packages@,
            keys@.len() == bumps@.len(),
            forall|j: int|
                0 <= j < keys@.len() ==> #[trigger] keys@[j]@ == lower_of(bumps@[j].package_name@),
            forall|x: int, y: int| 0 <= x < y < keys@.len() ==> lex_le(keys@[x]@, keys@[y]@),
            forall|k: int|
                0 <= k < changes(old_m.take(i as int), new_m).len() ==> parses(
                    #[trigger] changes(old_m.take(i as int), new_m)[k],
                ),
            bumps@.map_values(|b: VersionBump| b@).to_multiset() == changes(
                old_m.take(i as int),
                new_m,
            ).map_values(|c: ChangeView| classified(c)).to_multiset(),
        decreases old_m.len() - i,
    {
        let ghost before = changes(old_m.take(i as int), new_m);
        proof {
            assert(old_m.take(i + 1).drop_last() =~= old_m.take(i as int));
        }
        let key = old_packages.key_at(i);
        let old_package = old_packages.package_at(i);
        match new_packages.position(key) {
            Some(j) => {
                let new_package = new_packages.package_at(j);
                if old_package.version != new_package.version {
                    let ghost c = (old_package.name@, old_package.version@, new_package.version@);
                    assert(changes(old_m.take(i + 1), new_m) == before.push(c));
                    let is_breaking = match is_breaking_bump(
                        old_package.version.as_str(),
                        new_package.version.as_str(),
                    ) {
                        Ok(b) => b,
                        Err(e) => {
                            proof {
                                lemma_changes_prefix(old_m, new_m, i + 1);
                                assert(changes(old_m.take(i + 1), new_m)[before.len() as int]
                                    == c);
                                assert(changes(old_m, new_m)[before.len() as int] == c);
                            }
                            return Err(e);
                        },
                    };
                    let bump = VersionBump {
                        package_name: old_package.name.clone(),
                        old_version: old_package.version.clone(),
                        new_version: new_package.version.clone(),
                        is_breaking,
                    };
                    let sort_key = chars_of(to_lower(bump.package_name.as_str()).as_str());
                    proof {
                        assert(bump@ == classified(c));
                        assert(before.push(c).map_values(|c: ChangeView| classified(c))
                            =~= before.map_values(|c: ChangeView| classified(c)).push(
                            classified(c),
                        ));
                        vstd::seq_lib::to_multiset_build(
                            before.map_values(|c: ChangeView| classified(c)),
                            classified(c),
                        );
                    }
                    insert_sorted(&mut keys, &mut bumps, sort_key, bump);
                } else {
                    assert(changes(old_m.take(i + 1), new_m) == before);
                }
            },
            None => {
                assert(changes(old_m.take(i + 1), new_m) == before);
            },
        }
        i += 1;
    }
    proof {
        assert(old_m.take(i as int) =~= old_m);
        let view = bumps@.map_values(|b: VersionBump| b@);
        assert forall|x: int, y: int| 0 <= x < y < view.len() implies lex_le(
            lower_of(view[x].0),
            lower_of(view[y].0),
        ) by {
            assert(keys@[x]@ == lower_of(bumps@[x].package_name@));
            assert(keys@[y]@ == lower_of(bumps@[y].package_name@));
        }
    }
    Ok(bumps)
}


/// Each change comes from an entry of `old` whose key `new` holds with another
/// version string.
proof fn lemma_change_origin(old: Seq<EntryView>, new: Seq<EntryView>, k: int)
    requires
        0 <= k < changes(old, new).len(),
    ensures
        exists|i: int|
            0 <= i < old.len() && old[i].1 == changes(old, new)[k].0 && old[i].2 == changes(
                old,
                new,
            )[k].1 && match lookup(new, #[trigger] old[i].0) {
                Some(n) => n.1 == changes(old, new)[k].2,
                None => false,
            },
        changes(old, new)[k].1 != changes(old, new)[k].2,
    decreases old.len(),
{
    let rest = changes(old.drop_last(), new);
    if k < rest.len() {
        lemma_change_origin(old.drop_last(), new, k);
        let i = choose|i: int|
            0 <= i < old.drop_last().len() && old.drop_last()[i].1 == rest[k].0
                && old.drop_last()[i].2 == rest[k].1 && match lookup(
                new,
                #[trigger] old.drop_last()[i].0,
            ) {
                Some(n) => n.1 == rest[k].2,
                None => false,
            };
        assert(old[i] == old.drop_last()[i]);
    } else {
        assert(old[old.len() - 1] == old.last());
    }
}

/// A bump that a successful comparison returns is one of the changes.
proof fn lemma_bump_is_change(old: Seq<EntryView>, new: Seq<EntryView>, bumps: Seq<BumpView>, b: BumpView)
    requires
        compared(old, new, bumps),
        bumps.contains(b),
    ensures
        exists|k: int|
            0 <= k < changes(old, new).len() && classified(#[trigger] changes(old, new)[k]) == b,
{
    let mapped = changes(old, new).map_values(|c: ChangeView| classified(c));
    vstd::seq_lib::to_multiset_contains(bumps, b);
    vstd::seq_lib::to_multiset_contains(mapped, b);
    let k = choose|k: int| 0 <= k < mapped.len() && mapped[k] == b;
    assert(classified(changes(old, new)[k]) == b);
}

/// A successful comparison emits nothing for a package that only one snapshot
/// holds: each bump bears the name and version of an entry of the old snapshot
/// whose key the new snapshot holds too, with the bump's new version.
pub proof fn lemma_bumps_only_for_shared_keys(
    old: Seq<EntryView>,
    new: Seq<EntryView>,
    bumps: Seq<BumpView>,
)
    requires
        compared(old, new, bumps),
    ensures
        forall|b: BumpView|
            #[trigger] bumps.contains(b) ==> exists|i: int|
                0 <= i < old.len() && old[i].1 == b.0 && old[i].2 == b.1 && match lookup(
                    new,
                    #[trigger] old[i].0,
                ) {
                    Some(n) => n.1 == b.2,
                    None => false,
                },
{
    assert forall|b: BumpView| #[trigger] bumps.contains(b) implies exists|i: int|
        0 <= i < old.len() && old[i].1 == b.0 && old[i].2 == b.1 && match lookup(
            new,
            #[trigger] old[i].0,
        ) {
            Some(n) => n.1 == b.2,
            None => false,
        } by {
        lemma_bump_is_change(old, new, bumps, b);
        let k = choose|k: int|
            0 <= k < changes(old, new).len() && classified(#[trigger] changes(old, new)[k]) == b;
        lemma_change_origin(old, new, k);
    }
}

/// A successful comparison emits nothing for a package whose version string is
/// the same in both snapshots.
pub proof fn lemma_bumps_only_for_changed_versions(
    old: Seq<EntryView>,
    new: Seq<EntryView>,
    bumps: Seq<BumpView>,
)
    requires
        compared(old, new, bumps),
    ensures
        forall|b: BumpView| #[trigger] bumps.contains(b) ==> b.1 != b.2,
{
    assert forall|b: BumpView| #[trigger] bumps.contains(b) implies b.1 != b.2 by {
        lemma_bump_is_change(old, new, bumps, b);
        let k = choose|k: int|
            0 <= k < changes(old, new).len() && classified(#[trigger] changes(old, new)[k]) == b;
        lemma_change_origin(old, new, k);
    }
}

} // verus!
