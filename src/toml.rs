//! Adding and removing `[patch]` entries of a manifest.
use vstd::prelude::*;

use crate::document::{
    all_empty, document_entries, document_root, document_text, error_message, has_key,
    item_as_table_mut, keys_unique, lemma_lookup_has, lemma_lookup_index, lemma_lookup_put,
    lemma_lookup_put_other, lemma_present_contains, lemma_present_index, lemma_present_push,
    lemma_present_unique, lemma_put_absent, lemma_put_lookup, lemma_put_put, lemma_unique_index,
    lemma_without_absent, lemma_without_has_key, lemma_without_keeps, lemma_without_push_absent,
    lemma_without_put, lookup, new_table, parse_document, parse_value, parsed_document,
    parsed_value, present_keys, put, render_document, root_is_table, table_contains, table_dotted,
    table_entries, table_get_mut, table_insert, table_is_empty, table_item, table_keys,
    table_or_new, table_remove, table_set_dotted, without, Entries, Node,
};
use crate::source::{source, source_text, Failure, Mode, PatchError};

verus! {

/// One edit of the `[patch]` section.
pub enum Operation<'a> {
    /// Patch `name` of `registry` with the source `mode` names.
    Add { registry: &'a str, name: &'a str, mode: &'a Mode },
    /// Take `name` out of every registry.
    Remove { name: &'a str },
}

/// The table that a subtable gets: the one a key holds, or a new one.
pub open spec fn subtable_of(es: Entries, k: Seq<char>) -> Entries {
    match lookup(es, k) {
        Node::Table(sub, _) => sub,
        _ => Seq::empty(),
    }
}

/// Finds the table under `name`, making an empty one where the key holds
/// nothing; a key that holds anything else is a conflict, and the table is
/// then left as it was.
fn create_subtable<'a>(table: &'a mut toml_edit::Table, name: &str) -> (r: Result<
    &'a mut toml_edit::Table,
    PatchError,
>)
    ensures
        r is Ok <==> table_or_new(lookup(table_entries(*old(table)), name@)) is Some,
        r is Ok ==> table_entries(*r->Ok_0) == subtable_of(table_entries(*old(table)), name@),
        r is Ok ==> keys_unique(table_entries(*r->Ok_0)),
        r is Ok && lookup(table_entries(*old(table)), name@) is Table ==> lookup(
            table_entries(*old(table)),
            name@,
        ) == Node::Table(table_entries(*r->Ok_0), table_dotted(*r->Ok_0)),
        r is Ok ==> table_entries(*final(table)) == put(
            table_entries(*old(table)),
            name@,
            Node::Table(table_entries(*final(r->Ok_0)), table_dotted(*final(r->Ok_0))),
        ),
        r is Err ==> r->Err_0@ == Failure::SchemaConflict(name@),
        r is Err ==> table_entries(*final(table)) == table_entries(*old(table)),
        r is Err ==> table_dotted(*final(table)) == table_dotted(*old(table)),
{
    let ghost es0 = table_entries(*table);
    if !table_contains(table, name) {
        table_insert(table, name, table_item(new_table()));
        proof {
            lemma_lookup_put(es0, name@, Node::Table(Seq::empty(), false));
        }
    }
    let ghost es1 = table_entries(*table);
    assert(lookup(es1, name@) != Node::Empty);
    match table_get_mut(table, name) {
        Some(item) => match item_as_table_mut(item) {
            Some(sub) => {
                proof {
                    if lookup(es0, name@) == Node::Empty {
                        lemma_put_put(
                            es0,
                            name@,
                            Node::Table(Seq::empty(), false),
                            Node::Table(table_entries(*final(sub)), table_dotted(*final(sub))),
                        );
                    }
                }
                Ok(sub)
            },
            None => {
                proof {
                    lemma_put_lookup(es1, name@);
                }
                Err(PatchError::SchemaConflict(name.to_string()))
            },
        },
        None => Err(PatchError::SchemaConflict(name.to_string())),
    }
}

/// The root entries with `v` stored as `name` in registry `registry` of the
/// `patch` table; both tables are made where their keys hold nothing. The
/// patch table is written as dotted keys, the registry under a header.
pub open spec fn added(es: Entries, registry: Seq<char>, name: Seq<char>, v: Node) -> Entries {
    let pes = subtable_of(es, "patch"@);
    let res = subtable_of(pes, registry);
    put(
        es,
        "patch"@,
        Node::Table(put(pes, registry, Node::Table(put(res, name, v), false)), true),
    )
}

/// What adding `name` to `registry` with the source `mode` makes of the root
/// entries `es`, or the error it fails with.
pub open spec fn add_outcome(
    working_dir: Seq<char>,
    manifest_dir: Seq<char>,
    es: Entries,
    registry: Seq<char>,
    name: Seq<char>,
    mode: Mode,
) -> Result<Entries, Failure> {
    if table_or_new(lookup(es, "patch"@)) is None {
        Err(Failure::SchemaConflict("patch"@))
    } else if table_or_new(lookup(subtable_of(es, "patch"@), registry)) is None {
        Err(Failure::SchemaConflict(registry))
    } else {
        match source_text(working_dir, manifest_dir, mode) {
            None => Err(Failure::PathDiffInvariantViolation),
            Some(text) => match parsed_value(text) {
                None => Err(Failure::UnparseableGeneratedValue),
                Some(v) => Ok(added(es, registry, name, Node::Value(v))),
            },
        }
    }
}

/// Whether `name` holds something other than a table; the table is only read.
fn holds_non_table(table: &mut toml_edit::Table, name: &str) -> (r: bool)
    ensures
        r == (table_or_new(lookup(table_entries(*old(table)), name@)) is None),
        table_entries(*final(table)) == table_entries(*old(table)),
        table_dotted(*final(table)) == table_dotted(*old(table)),
{
    let ghost es = table_entries(*table);
    match table_get_mut(table, name) {
        None => false,
        Some(item) => {
            let found = match item_as_table_mut(item) {
                Some(_) => false,
                None => true,
            };
            proof {
                lemma_put_lookup(es, name@);
            }
            found
        },
    }
}

/// Whether the patch table holds something other than a table under
/// `registry`; the manifest is only read.
fn registry_conflict(manifest_table: &mut toml_edit::Table, registry: &str) -> (r: bool)
    requires
        table_or_new(lookup(table_entries(*old(manifest_table)), "patch"@)) is Some,
    ensures
        r == (table_or_new(
            lookup(subtable_of(table_entries(*old(manifest_table)), "patch"@), registry@),
        ) is None),
        table_entries(*final(manifest_table)) == table_entries(*old(manifest_table)),
{
    let ghost es = table_entries(*manifest_table);
    match table_get_mut(manifest_table, "patch") {
        None => false,
        Some(item) => match item_as_table_mut(item) {
            Some(patch_table) => {
                let found = holds_non_table(patch_table, registry);
                proof {
                    lemma_put_lookup(es, "patch"@);
                }
                found
            },
            None => false,
        },
    }
}

/// Stores the source of `mode` as `name` in registry `registry` of the patch
/// table, making both tables where they are missing, and sets the patch table
/// to dotted keys and the registry table to a header. A key that holds
/// something other than a table is reported before the value is built; on an
/// error nothing changes.
fn add_patch_to_manifest(
    working_dir: &str,
    manifest_table: &mut toml_edit::Table,
    manifest_directory: &str,
    registry: &str,
    name: &str,
    mode: &Mode,
) -> (r: Result<(), PatchError>)
    ensures
        match add_outcome(
            working_dir@,
            manifest_directory@,
            table_entries(*old(manifest_table)),
            registry@,
            name@,
            *mode,
        ) {
            Ok(es) => r is Ok && table_entries(*final(manifest_table)) == es,
            Err(f) => r is Err && r->Err_0@ == f && table_entries(*final(manifest_table))
                == table_entries(*old(manifest_table)),
        },
{
    if holds_non_table(manifest_table, "patch") {
        return Err(PatchError::SchemaConflict("patch".to_string()));
    }
    if registry_conflict(manifest_table, registry) {
        return Err(PatchError::SchemaConflict(registry.to_string()));
    }
    let text = source(working_dir, manifest_directory, mode)?;
    let item = match parse_value(text.as_str()) {
        Ok(item) => item,
        Err(_) => return Err(PatchError::UnparseableGeneratedValue),
    };
    let patch_table = create_subtable(manifest_table, "patch")?;
    let registry_table = create_subtable(patch_table, registry)?;
    table_set_dotted(registry_table, false);
    table_insert(registry_table, name, item);
    table_set_dotted(patch_table, true);
    Ok(())
}

/// A registry without `name`; anything that is not a table stays as it is.
pub open spec fn strip(n: Node, name: Seq<char>) -> Node {
    match n {
        Node::Table(res, dotted) => Node::Table(without(res, name), dotted),
        _ => n,
    }
}

/// Every registry without `name`.
pub open spec fn stripped(pes: Entries, name: Seq<char>) -> Entries {
    pes.map_values(|e: (Seq<char>, Node)| (e.0, strip(e.1, name)))
}

/// The registries whose keys are in `ks` without `name`.
pub open spec fn stripped_among(pes: Entries, name: Seq<char>, ks: Seq<Seq<char>>) -> Entries {
    pes.map_values(
        |e: (Seq<char>, Node)|
            if ks.contains(e.0) {
                (e.0, strip(e.1, name))
            } else {
                e
            },
    )
}

/// A registry that holds `name` and nothing else once `name` is taken out:
/// the removal empties it.
pub open spec fn dropped(n: Node, name: Seq<char>) -> bool {
    match n {
        Node::Table(res, _) => lookup(res, name) != Node::Empty && all_empty(without(res, name)),
        _ => false,
    }
}

/// The keys among `ks` whose registry the removal of `name` empties, in the
/// order of `ks`.
pub open spec fn emptied_keys(ks: Seq<Seq<char>>, pes: Entries, name: Seq<char>) -> Seq<Seq<char>>
    decreases ks.len(),
{
    if ks.len() == 0 {
        Seq::empty()
    } else {
        let rest = emptied_keys(ks.drop_last(), pes, name);
        if dropped(lookup(pes, ks.last()), name) {
            rest.push(ks.last())
        } else {
            rest
        }
    }
}

/// `es` without the entries whose keys are in `ks`.
pub open spec fn without_all(es: Entries, ks: Seq<Seq<char>>) -> Entries
    decreases ks.len(),
{
    if ks.len() == 0 {
        es
    } else {
        without(without_all(es, ks.drop_last()), ks.last())
    }
}

/// Every entry of the patch table is a registry table (or a placeholder).
pub open spec fn registries_ok(pes: Entries) -> bool {
    forall|i: int| 0 <= i < pes.len() ==> #[trigger] table_or_new(pes[i].1) is Some
}

/// The patch table once `name` is out of every registry and the registries
/// that this emptied are gone; a registry that was empty before stays.
pub open spec fn cleaned(pes: Entries, name: Seq<char>) -> Entries {
    without_all(stripped(pes, name), emptied_keys(present_keys(pes), pes, name))
}

/// Takes `name` out of every registry of the patch table, then removes the
/// registries that held it and hold nothing else.
fn clean_registries(patch_table: &mut toml_edit::Table, name: &str) -> (r: Result<(), PatchError>)
    requires
        keys_unique(table_entries(*old(patch_table))),
    ensures
        registries_ok(table_entries(*old(patch_table))) ==> r is Ok && table_entries(
            *final(patch_table),
        ) == cleaned(table_entries(*old(patch_table)), name@),
        registries_ok(table_entries(*old(patch_table))) ==> table_dotted(*final(patch_table))
            == table_dotted(*old(patch_table)),
        !registries_ok(table_entries(*old(patch_table))) ==> r is Err && exists|j: int|
            0 <= j < table_entries(*old(patch_table)).len() && table_or_new(
                #[trigger] table_entries(*old(patch_table))[j].1,
            ) is None && r->Err_0@ == Failure::SchemaConflict(
                table_entries(*old(patch_table))[j].0,
            ),
{
    let ghost pes = table_entries(*patch_table);
    let ghost dotted = table_dotted(*patch_table);
    let keys = table_keys(patch_table);
    let ghost kv = keys@.map_values(|s: String| s@);
    proof {
        lemma_present_unique(pes);
    }
    let mut to_remove: Vec<String> = Vec::new();
    let mut i: usize = 0;
    assert(kv.take(0) =~= Seq::<Seq<char>>::empty());
    assert(stripped_among(pes, name@, kv.take(0)) =~= pes);
    while i < keys.len()
        invariant
            0 <= i <= keys.len(),
            kv == keys@.map_values(|s: String| s@),
            kv == present_keys(pes),
            forall|a: int, b: int| 0 <= a < b < kv.len() ==> #[trigger] kv[a] != #[trigger] kv[b],
            pes == table_entries(*old(patch_table)),
            dotted == table_dotted(*old(patch_table)),
            table_dotted(*patch_table) == dotted,
            keys_unique(pes),
            table_entries(*patch_table) == stripped_among(pes, name@, kv.take(i as int)),
            forall|m: int| 0 <= m < i ==> (#[trigger] lookup(pes, kv[m])) is Table,
            to_remove@.map_values(|s: String| s@) == emptied_keys(kv.take(i as int), pes, name@),
        decreases keys.len() - i,
    {
        let key = &keys[i];
        let ghost k = kv[i as int];
        assert(key@ == k);
        let ghost cur = table_entries(*patch_table);
        let ghost j = lemma_present_index(pes, i as int);
        let ghost done = kv.take(i as int);
        assert(!done.contains(k)) by {
            if done.contains(k) {
                let q = choose|q: int| 0 <= q < done.len() && done[q] == k;
                assert(kv[q] == kv[i as int]);
            }
        }
        assert(cur.len() == pes.len());
        assert(cur[j] == stripped_among(pes, name@, done)[j]);
        assert(cur[j] == pes[j]);
        assert(keys_unique(cur)) by {
            assert forall|a: int, b: int| 0 <= a < b < cur.len() implies #[trigger] cur[a].0
                != #[trigger] cur[b].0 by {
                assert(cur[a].0 == pes[a].0 && cur[b].0 == pes[b].0);
            }
        }
        proof {
            lemma_unique_index(cur, j, Node::Empty);
            lemma_unique_index(pes, j, Node::Empty);
        }
        match table_get_mut(patch_table, key.as_str()) {
            Some(item) => match item_as_table_mut(item) {
                Some(registry_table) => {
                    let ghost x = table_entries(*registry_table);
                    let ghost d = table_dotted(*registry_table);
                    let held = table_contains(registry_table, name);
                    table_remove(registry_table, name);
                    let now_empty = table_is_empty(registry_table);
                    proof {
                        lemma_unique_index(
                            cur,
                            j,
                            Node::Table(
                                table_entries(*final(registry_table)),
                                table_dotted(*final(registry_table)),
                            ),
                        );
                    }
                    if held && now_empty {
                        to_remove.push(key.clone());
                    }
                    proof {
                        let next = kv.take(i + 1);
                        assert(next =~= done.push(k));
                        assert(next[i as int] == k);
                        assert(next.contains(k));
                        assert(next.drop_last() =~= done);
                        assert(pes[j].1 == Node::Table(x, d));
                        assert(table_entries(*patch_table)[j] == (k, Node::Table(without(x, name@), d)));
                        assert(stripped_among(pes, name@, next)[j] == (k, strip(pes[j].1, name@)));
                        assert(table_entries(*patch_table) =~= stripped_among(pes, name@, next)) by {
                            assert forall|m: int| 0 <= m < pes.len() implies
                                #[trigger] table_entries(*patch_table)[m]
                                == stripped_among(pes, name@, next)[m] by {
                                if m != j {
                                    assert(pes[m].0 != k);
                                    assert(next.contains(pes[m].0) == done.contains(pes[m].0));
                                }
                            }
                        }
                        assert(to_remove@.map_values(|s: String| s@) =~= emptied_keys(next, pes, name@));
                    }
                },
                None => {
                    proof {
                        assert(!(pes[j].1 is Table));
                        assert(table_or_new(pes[j].1) is None);
                        assert(!registries_ok(pes));
                    }
                    let conflict = key.clone();
                    assert(conflict@ == pes[j].0);
                    return Err(PatchError::SchemaConflict(conflict));
                },
            },
            None => {
                return Err(PatchError::SchemaConflict(key.clone()));
            },
        }
        i = i + 1;
    }
    proof {
        assert(kv.take(i as int) =~= kv);
        assert(stripped_among(pes, name@, kv) =~= stripped(pes, name@)) by {
            assert forall|m: int| 0 <= m < pes.len() implies
                #[trigger] stripped_among(pes, name@, kv)[m] == stripped(pes, name@)[m] by {
                if pes[m].1 != Node::Empty {
                    lemma_present_contains(pes, m);
                }
            }
        }
        assert(registries_ok(pes)) by {
            assert forall|m: int| 0 <= m < pes.len() implies #[trigger] table_or_new(pes[m].1) is Some by {
                if pes[m].1 != Node::Empty {
                    lemma_present_contains(pes, m);
                    let q = choose|q: int| 0 <= q < kv.len() && kv[q] == pes[m].0;
                    assert(lookup(pes, kv[q]) is Table);
                    lemma_unique_index(pes, m, Node::Empty);
                }
            }
        }
    }
    let ghost rv = to_remove@.map_values(|s: String| s@);
    let ghost sp = stripped(pes, name@);
    let mut n: usize = 0;
    assert(rv.take(0) =~= Seq::<Seq<char>>::empty());
    while n < to_remove.len()
        invariant
            0 <= n <= to_remove.len(),
            rv == to_remove@.map_values(|s: String| s@),
            pes == table_entries(*old(patch_table)),
            dotted == table_dotted(*old(patch_table)),
            table_dotted(*patch_table) == dotted,
            registries_ok(pes),
            sp == stripped(pes, name@),
            rv == emptied_keys(present_keys(pes), pes, name@),
            table_entries(*patch_table) == without_all(sp, rv.take(n as int)),
        decreases to_remove.len() - n,
    {
        table_remove(patch_table, to_remove[n].as_str());
        assert(rv.take(n + 1).drop_last() =~= rv.take(n as int));
        n = n + 1;
    }
    assert(rv.take(n as int) =~= rv);
    Ok(())
}

/// The root entries once `name` is removed from every registry of the patch
/// table; nothing changes where there is no patch table.
pub open spec fn removed(es: Entries, name: Seq<char>) -> Entries {
    match lookup(es, "patch"@) {
        Node::Table(pes, dotted) => put(es, "patch"@, Node::Table(cleaned(pes, name), dotted)),
        _ => es,
    }
}

/// Whether a removal succeeds on the root entries `es`: there is no patch
/// table, or one whose entries are all tables.
pub open spec fn removable(es: Entries) -> bool {
    match lookup(es, "patch"@) {
        Node::Empty => true,
        Node::Table(pes, _) => registries_ok(pes),
        _ => false,
    }
}

/// A removal fails with `f` on `es`: `f` names `patch`, or a key of the patch
/// table that holds no table.
pub open spec fn remove_failure(es: Entries, f: Failure) -> bool {
    match lookup(es, "patch"@) {
        Node::Table(pes, _) => exists|j: int|
            0 <= j < pes.len() && table_or_new(#[trigger] pes[j].1) is None && f
                == Failure::SchemaConflict(pes[j].0),
        _ => f == Failure::SchemaConflict("patch"@),
    }
}

/// Takes `name` out of every registry; a manifest without a patch table is
/// left as it is.
fn remove_patch_from_manifest(manifest_table: &mut toml_edit::Table, name: &str) -> (r: Result<
    (),
    PatchError,
>)
    ensures
        r is Ok <==> removable(table_entries(*old(manifest_table))),
        r is Ok ==> table_entries(*final(manifest_table)) == removed(
            table_entries(*old(manifest_table)),
            name@,
        ),
        r is Err ==> remove_failure(table_entries(*old(manifest_table)), r->Err_0@),
{
    match table_get_mut(manifest_table, "patch") {
        None => Ok(()),
        Some(item) => match item_as_table_mut(item) {
            Some(patch_table) => clean_registries(patch_table, name),
            None => Err(PatchError::SchemaConflict("patch".to_string())),
        },
    }
}

/// Whether `op` succeeds on the root entries `es`.
pub open spec fn succeeds(working_dir: Seq<char>, manifest_dir: Seq<char>, es: Entries, op: Operation) -> bool {
    match op {
        Operation::Add { registry, name, mode } => add_outcome(
            working_dir,
            manifest_dir,
            es,
            registry@,
            name@,
            *mode,
        ) is Ok,
        Operation::Remove { name } => removable(es),
    }
}

/// What `op` makes of the root entries `es` where it succeeds.
pub open spec fn patched(working_dir: Seq<char>, manifest_dir: Seq<char>, es: Entries, op: Operation) -> Entries {
    match op {
        Operation::Add { registry, name, mode } => add_outcome(
            working_dir,
            manifest_dir,
            es,
            registry@,
            name@,
            *mode,
        )->Ok_0,
        Operation::Remove { name } => removed(es, name@),
    }
}

/// Whether `op` may fail with `f` on the root entries `es`.
pub open spec fn fails_with(
    working_dir: Seq<char>,
    manifest_dir: Seq<char>,
    es: Entries,
    op: Operation,
    f: Failure,
) -> bool {
    match op {
        Operation::Add { registry, name, mode } => add_outcome(
            working_dir,
            manifest_dir,
            es,
            registry@,
            name@,
            *mode,
        ) == Err::<Entries, Failure>(f),
        Operation::Remove { name } => remove_failure(es, f),
    }
}

/// Applies one operation to a parsed manifest.
fn patch_document(
    working_dir: &str,
    manifest: &mut toml_edit::DocumentMut,
    manifest_directory: &str,
    op: Operation,
) -> (r: Result<(), PatchError>)
    requires
        root_is_table(*old(manifest)),
    ensures
        root_is_table(*final(manifest)),
        r is Ok <==> succeeds(working_dir@, manifest_directory@, document_entries(*old(manifest)), op),
        r is Ok ==> document_entries(*final(manifest)) == patched(
            working_dir@,
            manifest_directory@,
            document_entries(*old(manifest)),
            op,
        ),
        r is Err ==> fails_with(
            working_dir@,
            manifest_directory@,
            document_entries(*old(manifest)),
            op,
            r->Err_0@,
        ),
{
    let manifest_table = document_root(manifest);
    match op {
        Operation::Add { registry, name, mode } => add_patch_to_manifest(
            working_dir,
            manifest_table,
            manifest_directory,
            registry,
            name,
            mode,
        ),
        Operation::Remove { name } => remove_patch_from_manifest(manifest_table, name),
    }
}

/// Applies one operation to the text of a manifest and returns the new text.
/// Both directories are used as given (see `resolve_path`).
pub fn patch_manifest(
    working_dir: &str,
    manifest: &str,
    manifest_directory: &str,
    op: Operation,
) -> (r: Result<String, PatchError>)
    ensures
        parsed_document(manifest@) is None ==> r is Err && r->Err_0@ == Failure::InvalidDocument,
        parsed_document(manifest@) is Some ==> {
            let es = parsed_document(manifest@)->Some_0;
            &&& r is Ok <==> succeeds(working_dir@, manifest_directory@, es, op)
            &&& r is Ok ==> exists|d: toml_edit::DocumentMut|
                document_entries(d) == patched(working_dir@, manifest_directory@, es, op)
                    && r->Ok_0@ == #[trigger] document_text(d)
            &&& r is Err ==> fails_with(working_dir@, manifest_directory@, es, op, r->Err_0@)
        },
{
    let mut document = match parse_document(manifest) {
        Ok(d) => d,
        Err(e) => return Err(PatchError::InvalidDocument(error_message(&e))),
    };
    patch_document(working_dir, &mut document, manifest_directory, op)?;
    Ok(render_document(&document))
}

/// A registry that does not hold `name`; anything else is let be.
pub open spec fn holds_not(n: Node, name: Seq<char>) -> bool {
    match n {
        Node::Table(res, _) => !has_key(res, name),
        _ => true,
    }
}

proof fn lemma_holds_not(n: Node, name: Seq<char>)
    requires
        holds_not(n, name),
    ensures
        !dropped(n, name),
        strip(n, name) == n,
{
    if let Node::Table(res, _) = n {
        lemma_without_absent(res, name);
        if lookup(res, name) != Node::Empty {
            lemma_lookup_index(res, name);
        }
    }
}

proof fn lemma_no_emptied_keys(ks: Seq<Seq<char>>, pes: Entries, name: Seq<char>)
    requires
        forall|m: int| 0 <= m < ks.len() ==> !dropped(lookup(pes, #[trigger] ks[m]), name),
    ensures
        emptied_keys(ks, pes, name) == Seq::<Seq<char>>::empty(),
    decreases ks.len(),
{
    if ks.len() > 0 {
        let front = ks.drop_last();
        assert forall|m: int| 0 <= m < front.len() implies !dropped(
            lookup(pes, #[trigger] front[m]),
            name,
        ) by {
            assert(front[m] == ks[m]);
        }
        lemma_no_emptied_keys(front, pes, name);
        assert(ks.last() == ks[ks.len() - 1]);
    }
}

proof fn lemma_emptied_key_listed(ks: Seq<Seq<char>>, pes: Entries, name: Seq<char>, m: int)
    requires
        0 <= m < ks.len(),
        dropped(lookup(pes, ks[m]), name),
    ensures
        emptied_keys(ks, pes, name).contains(ks[m]),
    decreases ks.len(),
{
    let rest = emptied_keys(ks.drop_last(), pes, name);
    if m == ks.len() - 1 {
        assert(emptied_keys(ks, pes, name) == rest.push(ks[m]));
        assert(rest.push(ks[m])[rest.len() as int] == ks[m]);
    } else {
        assert(ks.drop_last()[m] == ks[m]);
        lemma_emptied_key_listed(ks.drop_last(), pes, name, m);
        let q = choose|q: int| 0 <= q < rest.len() && rest[q] == ks[m];
        if dropped(lookup(pes, ks.last()), name) {
            assert(rest.push(ks.last())[q] == ks[m]);
        }
    }
}

proof fn lemma_without_all_gone(es: Entries, ks: Seq<Seq<char>>, k: Seq<char>)
    requires
        ks.contains(k),
    ensures
        !has_key(without_all(es, ks), k),
    decreases ks.len(),
{
    let front = without_all(es, ks.drop_last());
    lemma_without_has_key(front, ks.last(), k);
    if ks.last() != k {
        let q = choose|q: int| 0 <= q < ks.len() && ks[q] == k;
        assert(q != ks.len() - 1);
        assert(ks.drop_last()[q] == k);
        lemma_without_all_gone(es, ks.drop_last(), k);
    }
}

/// Removing a name that no registry holds leaves the manifest as it was,
/// empty registries included.
pub proof fn lemma_remove_absent(es: Entries, name: Seq<char>)
    requires
        removable(es),
        forall|j: int|
            0 <= j < subtable_of(es, "patch"@).len() ==> holds_not(
                #[trigger] subtable_of(es, "patch"@)[j].1,
                name,
            ),
    ensures
        removed(es, name) == es,
{
    if let Node::Table(pes, _) = lookup(es, "patch"@) {
        assert(subtable_of(es, "patch"@) == pes);
        assert(stripped(pes, name) =~= pes) by {
            assert forall|j: int| 0 <= j < pes.len() implies #[trigger] stripped(pes, name)[j]
                == pes[j] by {
                assert(holds_not(subtable_of(es, "patch"@)[j].1, name));
                lemma_holds_not(pes[j].1, name);
            }
        }
        let ks = present_keys(pes);
        assert forall|m: int| 0 <= m < ks.len() implies !dropped(
            lookup(pes, #[trigger] ks[m]),
            name,
        ) by {
            if lookup(pes, ks[m]) != Node::Empty {
                let j = lemma_lookup_index(pes, ks[m]);
                assert(holds_not(subtable_of(es, "patch"@)[j].1, name));
                lemma_holds_not(pes[j].1, name);
            }
        }
        lemma_no_emptied_keys(ks, pes, name);
        assert(without_all(pes, Seq::<Seq<char>>::empty()) == pes);
        lemma_put_lookup(es, "patch"@);
    }
}

/// Removing the last entry of a registry removes the registry itself.
pub proof fn lemma_remove_emptied(
    es: Entries,
    name: Seq<char>,
    registry: Seq<char>,
    res: Entries,
    dotted: bool,
)
    requires
        lookup(es, "patch"@) is Table,
        lookup(subtable_of(es, "patch"@), registry) == Node::Table(res, dotted),
        lookup(res, name) != Node::Empty,
        all_empty(without(res, name)),
    ensures
        !has_key(subtable_of(removed(es, name), "patch"@), registry),
{
    let pes = subtable_of(es, "patch"@);
    let d = lookup(es, "patch"@)->Table_1;
    let j = lemma_lookup_index(pes, registry);
    lemma_present_contains(pes, j);
    let ks = present_keys(pes);
    let m = choose|m: int| 0 <= m < ks.len() && ks[m] == registry;
    lemma_emptied_key_listed(ks, pes, name, m);
    lemma_without_all_gone(stripped(pes, name), emptied_keys(ks, pes, name), registry);
    lemma_lookup_put(es, "patch"@, Node::Table(cleaned(pes, name), d));
}

/// A second add of the same name to the same registry replaces the first:
/// adding `m1` then `m2` ends as adding `m2` alone, where the first add
/// succeeds.
pub proof fn lemma_add_twice(
    working_dir: Seq<char>,
    manifest_dir: Seq<char>,
    es: Entries,
    registry: Seq<char>,
    name: Seq<char>,
    m1: Mode,
    m2: Mode,
)
    requires
        add_outcome(working_dir, manifest_dir, es, registry, name, m1) is Ok,
    ensures
        add_outcome(
            working_dir,
            manifest_dir,
            add_outcome(working_dir, manifest_dir, es, registry, name, m1)->Ok_0,
            registry,
            name,
            m2,
        ) == add_outcome(working_dir, manifest_dir, es, registry, name, m2),
{
    let v1 = Node::Value(parsed_value(source_text(working_dir, manifest_dir, m1)->Some_0)->Some_0);
    let pes = subtable_of(es, "patch"@);
    let res = subtable_of(pes, registry);
    let grown = put(pes, registry, Node::Table(put(res, name, v1), false));
    let es1 = put(es, "patch"@, Node::Table(grown, true));
    lemma_lookup_put(es, "patch"@, Node::Table(grown, true));
    lemma_lookup_put(pes, registry, Node::Table(put(res, name, v1), false));
    assert(subtable_of(es1, "patch"@) == grown);
    assert(subtable_of(grown, registry) == put(res, name, v1));
    if let Some(text) = source_text(working_dir, manifest_dir, m2) {
        if let Some(t2) = parsed_value(text) {
            let v2 = Node::Value(t2);
            lemma_put_put(res, name, v1, v2);
            lemma_put_put(
                pes,
                registry,
                Node::Table(put(res, name, v1), false),
                Node::Table(put(res, name, v2), false),
            );
            lemma_put_put(
                es,
                "patch"@,
                Node::Table(grown, true),
                Node::Table(put(pes, registry, Node::Table(put(res, name, v2), false)), true),
            );
        }
    }
}

/// Registries that are all tables, none holding `name`.
pub open spec fn clear_of(pes: Entries, name: Seq<char>) -> bool {
    forall|j: int| 0 <= j < pes.len() ==> #[trigger] pes[j].1 is Table && holds_not(pes[j].1, name)
}

/// The registry under `registry`, if there is one, is not empty.
pub open spec fn registry_not_empty(pes: Entries, registry: Seq<char>) -> bool {
    match lookup(pes, registry) {
        Node::Table(res, _) => !all_empty(res),
        _ => true,
    }
}

/// The patch table with the registry under `registry` set to a header.
pub open spec fn restyled(pes: Entries, registry: Seq<char>) -> Entries {
    match lookup(pes, registry) {
        Node::Table(res, _) => put(pes, registry, Node::Table(res, false)),
        _ => pes,
    }
}

/// The root entries with the layout that adding to `registry` sets: the patch
/// table as dotted keys, the registry (where there is one) under a header.
pub open spec fn laid_out(es: Entries, registry: Seq<char>) -> Entries {
    put(es, "patch"@, Node::Table(restyled(subtable_of(es, "patch"@), registry), true))
}

proof fn lemma_clean_after_put(pes: Entries, registry: Seq<char>, name: Seq<char>, v: Node)
    requires
        keys_unique(pes),
        clear_of(pes, name),
        registry_not_empty(pes, registry),
        v is Value,
    ensures
        registries_ok(
            put(pes, registry, Node::Table(put(subtable_of(pes, registry), name, v), false)),
        ),
        cleaned(
            put(pes, registry, Node::Table(put(subtable_of(pes, registry), name, v), false)),
            name,
        ) == restyled(pes, registry),
{
    let res = subtable_of(pes, registry);
    let x = Node::Table(put(res, name, v), false);
    let grown = put(pes, registry, x);
    lemma_without_put(res, name, v);
    lemma_lookup_put(res, name, v);
    if lookup(pes, registry) != Node::Empty {
        let j = lemma_lookup_index(pes, registry);
        lemma_unique_index(pes, j, x);
        assert(holds_not(pes[j].1, name));
        lemma_without_absent(res, name);
        let y = Node::Table(res, false);
        assert(grown == pes.update(j, (registry, x)));
        assert(stripped(grown, name) =~= pes.update(j, (registry, y))) by {
            assert forall|m: int| 0 <= m < pes.len() implies #[trigger] stripped(grown, name)[m]
                == pes.update(j, (registry, y))[m] by {
                if m != j {
                    assert(holds_not(pes[m].1, name));
                    lemma_holds_not(pes[m].1, name);
                }
            }
        }
        lemma_unique_index(pes, j, y);
        let ks = present_keys(grown);
        assert forall|m: int| 0 <= m < ks.len() implies !dropped(
            lookup(grown, #[trigger] ks[m]),
            name,
        ) by {
            if lookup(grown, ks[m]) != Node::Empty {
                let q = lemma_lookup_index(grown, ks[m]);
                if q != j {
                    assert(grown[q] == pes[q]);
                    assert(holds_not(pes[q].1, name));
                    lemma_holds_not(pes[q].1, name);
                }
            }
        }
        lemma_no_emptied_keys(ks, grown, name);
        assert(without_all(stripped(grown, name), Seq::<Seq<char>>::empty()) == stripped(
            grown,
            name,
        ));
        assert(registries_ok(grown)) by {
            assert forall|m: int| 0 <= m < grown.len() implies #[trigger] table_or_new(grown[m].1) is Some by {
                if m != j {
                    assert(grown[m] == pes[m]);
                }
            }
        }
    } else {
        assert(!has_key(pes, registry)) by {
            if has_key(pes, registry) {
                assert forall|i: int| 0 <= i < pes.len() implies #[trigger] pes[i].1 != Node::Empty by {
                    assert(pes[i].1 is Table);
                }
                lemma_lookup_has(pes, registry);
            }
        }
        assert(res == Seq::<(Seq<char>, Node)>::empty());
        lemma_put_absent(pes, registry, x);
        lemma_without_absent(Seq::<(Seq<char>, Node)>::empty(), name);
        let e = (registry, Node::Table(Seq::<(Seq<char>, Node)>::empty(), false));
        assert(stripped(grown, name) =~= pes.push(e)) by {
            assert forall|m: int| 0 <= m < pes.len() implies #[trigger] stripped(grown, name)[m]
                == pes.push(e)[m] by {
                assert(grown[m] == pes[m]);
                assert(holds_not(pes[m].1, name));
                lemma_holds_not(pes[m].1, name);
            }
        }
        lemma_present_push(pes, (registry, x));
        let ks = present_keys(pes);
        assert(present_keys(grown) == ks.push(registry));
        assert(ks.push(registry).drop_last() =~= ks);
        assert forall|m: int| 0 <= m < ks.len() implies !dropped(
            lookup(grown, #[trigger] ks[m]),
            name,
        ) by {
            let q = lemma_present_index(pes, m);
            assert(ks[m] != registry);
            lemma_lookup_put_other(pes, registry, x, ks[m]);
            lemma_unique_index(pes, q, Node::Empty);
            assert(holds_not(pes[q].1, name));
            lemma_holds_not(pes[q].1, name);
        }
        lemma_no_emptied_keys(ks, grown, name);
        lemma_lookup_put(pes, registry, x);
        assert(all_empty(without(put(res, name, v), name)));
        assert(dropped(lookup(grown, registry), name));
        assert(emptied_keys(ks.push(registry), grown, name) =~= seq![registry]);
        assert(seq![registry].drop_last() =~= Seq::<Seq<char>>::empty());
        lemma_without_push_absent(pes, registry, Node::Table(Seq::<(Seq<char>, Node)>::empty(), false));
        assert(without_all(pes.push(e), Seq::<Seq<char>>::empty()) == pes.push(e));
        assert(seq![registry].last() == registry);
        assert(without_all(pes.push(e), seq![registry]) == without(pes.push(e), registry));
        assert(registries_ok(grown)) by {
            assert forall|m: int| 0 <= m < grown.len() implies #[trigger] table_or_new(grown[m].1) is Some by {
                if m < pes.len() {
                    assert(grown[m] == pes[m]);
                }
            }
        }
    }
}

/// Adding a name to a registry and removing it again gives back the manifest,
/// but for the layout that adding sets (the patch table as dotted keys, the
/// registry under a header); a manifest already in that layout comes back
/// unchanged. This holds where the manifest has a patch table whose entries
/// are all registry tables that do not hold the name, and where the registry
/// added to, if it exists, is not empty (an emptied registry is removed).
pub proof fn lemma_add_remove(
    working_dir: Seq<char>,
    manifest_dir: Seq<char>,
    es: Entries,
    registry: Seq<char>,
    name: Seq<char>,
    mode: Mode,
)
    requires
        add_outcome(working_dir, manifest_dir, es, registry, name, mode) is Ok,
        lookup(es, "patch"@) is Table,
        keys_unique(subtable_of(es, "patch"@)),
        clear_of(subtable_of(es, "patch"@), name),
        registry_not_empty(subtable_of(es, "patch"@), registry),
    ensures
        removable(add_outcome(working_dir, manifest_dir, es, registry, name, mode)->Ok_0),
        removed(add_outcome(working_dir, manifest_dir, es, registry, name, mode)->Ok_0, name)
            == laid_out(es, registry),
        lookup(es, "patch"@)->Table_1 && !(lookup(subtable_of(es, "patch"@), registry) matches Node::Table(_, true))
            ==> removed(add_outcome(working_dir, manifest_dir, es, registry, name, mode)->Ok_0, name)
            == es,
{
    let v = Node::Value(parsed_value(source_text(working_dir, manifest_dir, mode)->Some_0)->Some_0);
    let pes = subtable_of(es, "patch"@);
    let grown = put(pes, registry, Node::Table(put(subtable_of(pes, registry), name, v), false));
    lemma_clean_after_put(pes, registry, name, v);
    lemma_lookup_put(es, "patch"@, Node::Table(grown, true));
    lemma_put_put(es, "patch"@, Node::Table(grown, true), Node::Table(restyled(pes, registry), true));
    if lookup(es, "patch"@)->Table_1 && !(lookup(pes, registry) matches Node::Table(_, true)) {
        if lookup(pes, registry) is Table {
            lemma_put_lookup(pes, registry);
        }
        lemma_put_lookup(es, "patch"@);
    }
}

proof fn lemma_emptied_key_dropped(ks: Seq<Seq<char>>, pes: Entries, name: Seq<char>, k: Seq<char>)
    requires
        emptied_keys(ks, pes, name).contains(k),
    ensures
        dropped(lookup(pes, k), name),
    decreases ks.len(),
{
    let rest = emptied_keys(ks.drop_last(), pes, name);
    if !(dropped(lookup(pes, ks.last()), name) && ks.last() == k) {
        if dropped(lookup(pes, ks.last()), name) {
            let q = choose|q: int| 0 <= q < rest.len() + 1 && rest.push(ks.last())[q] == k;
            assert(q < rest.len());
            assert(rest[q] == k);
        }
        lemma_emptied_key_dropped(ks.drop_last(), pes, name, k);
    }
}

proof fn lemma_without_all_keeps(es: Entries, ks: Seq<Seq<char>>, k: Seq<char>)
    requires
        has_key(es, k),
        !ks.contains(k),
    ensures
        has_key(without_all(es, ks), k),
    decreases ks.len(),
{
    if ks.len() > 0 {
        assert(!ks.drop_last().contains(k)) by {
            if ks.drop_last().contains(k) {
                let q = choose|q: int| 0 <= q < ks.drop_last().len() && ks.drop_last()[q] == k;
                assert(ks[q] == k);
            }
        }
        lemma_without_all_keeps(es, ks.drop_last(), k);
        assert(ks[ks.len() - 1] == ks.last());
        lemma_without_keeps(without_all(es, ks.drop_last()), ks.last(), k);
    }
}

/// Removing a name keeps every registry that the removal does not empty.
pub proof fn lemma_remove_keeps(es: Entries, name: Seq<char>, registry: Seq<char>)
    requires
        lookup(es, "patch"@) is Table,
        has_key(subtable_of(es, "patch"@), registry),
        !dropped(lookup(subtable_of(es, "patch"@), registry), name),
    ensures
        has_key(subtable_of(removed(es, name), "patch"@), registry),
{
    let pes = subtable_of(es, "patch"@);
    let d = lookup(es, "patch"@)->Table_1;
    let eks = emptied_keys(present_keys(pes), pes, name);
    assert(!eks.contains(registry)) by {
        if eks.contains(registry) {
            lemma_emptied_key_dropped(present_keys(pes), pes, name, registry);
        }
    }
    let i = choose|i: int| 0 <= i < pes.len() && #[trigger] pes[i].0 == registry;
    assert(stripped(pes, name)[i].0 == registry);
    lemma_without_all_keeps(stripped(pes, name), eks, registry);
    lemma_lookup_put(es, "patch"@, Node::Table(cleaned(pes, name), d));
}

} // verus!
