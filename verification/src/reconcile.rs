//! State reconciler: merges the snapshot store's contents with the live
//! watched root into one ordered list of per-subfolder states.
//!
//! The input is a plain scan of both roots: for each subfolder directory of
//! the snapshot store its name, the raw text of its memo sidecar if one is
//! present, and its directory entries; and the directory entries of the
//! live root.  The output lists every subfolder seen in either place, with
//! its memo, its generations newest first, and whether it still exists in
//! the live root, sorted by name for deterministic presentation.  The
//! result is a pure function of the scans: nothing is cached.

use crate::memo::{sidecar_file_name, spec_memo_of, spec_sidecar_file_name};
use crate::order::{lemma_filter_take_step, lex_leq, sort_strings, view_seq};
use vstd::prelude::*;

verus! {

/// One generation of a subfolder, named by its timestamp.
pub struct BackupEntry {
    /// Timestamp string, also the generation's directory name.
    pub timestamp: String,
    /// Numeric timestamp slot, reserved; reconciliation fills in zero.
    pub timestamp_raw: i64,
}

/// The full derived state of one subfolder.
pub struct SubFolderState {
    /// Subfolder name, unique within the watched root.
    pub name: String,
    /// The memo read from the subfolder's sidecar, or empty.
    pub memo: String,
    /// Generations, newest first.
    pub backups: Vec<BackupEntry>,
    /// Whether the subfolder currently exists under the live root.
    pub source_exists: bool,
}

/// One entry of a scanned directory.
pub struct DirEntryInfo {
    pub name: String,
    pub is_dir: bool,
}

/// The scan of one subfolder directory of the snapshot store.
pub struct StoreFolderScan {
    /// The subfolder's name.
    pub name: String,
    /// The raw text of the memo sidecar, when the file is present.
    pub sidecar: Option<String>,
    /// The directory's entries: generation directories and the sidecar.
    pub entries: Vec<DirEntryInfo>,
}

#[verifier::ext_equal]
pub struct BackupEntryV {
    pub timestamp: Seq<char>,
    pub timestamp_raw: int,
}

#[verifier::ext_equal]
pub struct SubFolderStateV {
    pub name: Seq<char>,
    pub memo: Seq<char>,
    pub backups: Seq<BackupEntryV>,
    pub source_exists: bool,
}

#[verifier::ext_equal]
pub struct DirEntryV {
    pub name: Seq<char>,
    pub is_dir: bool,
}

#[verifier::ext_equal]
pub struct StoreFolderV {
    pub name: Seq<char>,
    pub sidecar: Option<Seq<char>>,
    pub entries: Seq<DirEntryV>,
}

impl View for BackupEntry {
    type V = BackupEntryV;

    open spec fn view(&self) -> BackupEntryV {
        BackupEntryV { timestamp: self.timestamp@, timestamp_raw: self.timestamp_raw as int }
    }
}

impl View for SubFolderState {
    type V = SubFolderStateV;

    open spec fn view(&self) -> SubFolderStateV {
        SubFolderStateV {
            name: self.name@,
            memo: self.memo@,
            backups: self.backups@.map_values(|b: BackupEntry| b@),
            source_exists: self.source_exists,
        }
    }
}

impl View for DirEntryInfo {
    type V = DirEntryV;

    open spec fn view(&self) -> DirEntryV {
        DirEntryV { name: self.name@, is_dir: self.is_dir }
    }
}

impl View for StoreFolderScan {
    type V = StoreFolderV;

    open spec fn view(&self) -> StoreFolderV {
        StoreFolderV {
            name: self.name@,
            sidecar: match self.sidecar {
                Some(s) => Some(s@),
                None => None,
            },
            entries: self.entries@.map_values(|e: DirEntryInfo| e@),
        }
    }
}

/// The views of a scanned store.
pub open spec fn store_view(s: Seq<StoreFolderScan>) -> Seq<StoreFolderV> {
    s.map_values(|f: StoreFolderScan| f@)
}

/// The views of a directory listing.
pub open spec fn entries_view(s: Seq<DirEntryInfo>) -> Seq<DirEntryV> {
    s.map_values(|e: DirEntryInfo| e@)
}

/// The views of a state list.
pub open spec fn states_view(s: Seq<SubFolderState>) -> Seq<SubFolderStateV> {
    s.map_values(|st: SubFolderState| st@)
}

/// The views of a backup list.
pub open spec fn backups_view(s: Seq<BackupEntry>) -> Seq<BackupEntryV> {
    s.map_values(|b: BackupEntry| b@)
}

/// An entry counts as a generation directory when it is a directory and is
/// not the memo sidecar.
pub open spec fn gen_pred() -> spec_fn(DirEntryV) -> bool {
    |e: DirEntryV| e.is_dir && e.name != spec_sidecar_file_name()
}

/// The generation timestamps among a store subfolder's entries.
pub open spec fn gen_names(entries: Seq<DirEntryV>) -> Seq<Seq<char>> {
    entries.filter(gen_pred()).map_values(|e: DirEntryV| e.name)
}

/// Whether the live root has an entry of this name, of any kind.
pub open spec fn live_has(live: Seq<DirEntryV>, name: Seq<char>) -> bool {
    exists|i: int| 0 <= i < live.len() && #[trigger] live[i].name == name
}

/// Whether the store has a subfolder of this name.
pub open spec fn store_has(store: Seq<StoreFolderV>, name: Seq<char>) -> bool {
    exists|i: int| 0 <= i < store.len() && #[trigger] store[i].name == name
}

/// The index of the store subfolder of this name.
pub open spec fn store_index(store: Seq<StoreFolderV>, name: Seq<char>) -> int {
    choose|i: int| 0 <= i < store.len() && #[trigger] store[i].name == name
}

/// A timestamp as a backup entry; the numeric slot is reserved and zero.
pub open spec fn mk_backup_entry() -> spec_fn(Seq<char>) -> BackupEntryV {
    |t: Seq<char>| BackupEntryV { timestamp: t, timestamp_raw: 0 }
}

/// A store subfolder's generations, newest first.
pub open spec fn spec_backups_of(f: StoreFolderV) -> Seq<BackupEntryV> {
    gen_names(f.entries).sort_by(lex_leq()).reverse().map_values(mk_backup_entry())
}

/// The derived state of a subfolder present in the snapshot store.
pub open spec fn spec_state_for_store(f: StoreFolderV, live: Seq<DirEntryV>) -> SubFolderStateV {
    SubFolderStateV {
        name: f.name,
        memo: match f.sidecar {
            Some(s) => spec_memo_of(s),
            None => Seq::empty(),
        },
        backups: spec_backups_of(f),
        source_exists: live_has(live, f.name),
    }
}

/// An entry of the live root counts as a new subfolder when it is a
/// directory that the store does not know yet.
pub open spec fn extra_pred(store: Seq<StoreFolderV>) -> spec_fn(DirEntryV) -> bool {
    |e: DirEntryV| e.is_dir && !store_has(store, e.name)
}

/// The names of the store's subfolders.
pub open spec fn store_names(store: Seq<StoreFolderV>) -> Seq<Seq<char>> {
    store.map_values(|f: StoreFolderV| f.name)
}

/// The names of live-only subfolders.
pub open spec fn extra_names(store: Seq<StoreFolderV>, live: Seq<DirEntryV>) -> Seq<Seq<char>> {
    live.filter(extra_pred(store)).map_values(|e: DirEntryV| e.name)
}

/// Every subfolder name seen in either root, sorted ascending.
pub open spec fn all_names(store: Seq<StoreFolderV>, live: Seq<DirEntryV>) -> Seq<Seq<char>> {
    (store_names(store) + extra_names(store, live)).sort_by(lex_leq())
}

/// The derived state of the subfolder of a given name.
pub open spec fn state_for(store: Seq<StoreFolderV>, live: Seq<DirEntryV>) -> spec_fn(
    Seq<char>,
) -> SubFolderStateV {
    |n: Seq<char>|
        if store_has(store, n) {
            spec_state_for_store(store[store_index(store, n)], live)
        } else {
            SubFolderStateV {
                name: n,
                memo: Seq::empty(),
                backups: Seq::empty(),
                source_exists: true,
            }
        }
}

/// The reconciled state list: one entry per subfolder name seen in either
/// root, in ascending name order, each a pure function of the scans.
pub open spec fn spec_get_all_state(store: Seq<StoreFolderV>, live: Seq<DirEntryV>) -> Seq<
    SubFolderStateV,
> {
    all_names(store, live).map_values(state_for(store, live))
}

/// Store subfolder names are pairwise distinct, as directory names are.
pub open spec fn distinct_store_names(s: Seq<StoreFolderV>) -> bool {
    forall|i: int, j: int| 0 <= i < j < s.len() ==> #[trigger] s[i].name != #[trigger] s[j].name
}

/// Live entry names are pairwise distinct, as directory entries are.
pub open spec fn distinct_entry_names(s: Seq<DirEntryV>) -> bool {
    forall|i: int, j: int| 0 <= i < j < s.len() ==> #[trigger] s[i].name != #[trigger] s[j].name
}

/// Whether the live root has an entry of this name.
fn live_contains(live: &Vec<DirEntryInfo>, name: &String) -> (r: bool)
    ensures
        r == live_has(entries_view(live@), name@),
{
    let n = live.len();
    let mut i: usize = 0;
    while i < n
        invariant
            i <= n,
            n == live@.len(),
            forall|k: int| 0 <= k < i ==> #[trigger] entries_view(live@)[k].name != name@,
        decreases n - i,
    {
        if live[i].name == *name {
            proof {
                assert(entries_view(live@)[i as int].name == name@);
            }
            return true;
        }
        i += 1;
    }
    false
}

/// The position of the store subfolder of this name, if the store has one.
fn find_store(store: &Vec<StoreFolderScan>, name: &String) -> (r: Option<usize>)
    ensures
        r is Some ==> 0 <= r->0 < store@.len() && store_view(store@)[r->0 as int].name == name@,
        r is None ==> !store_has(store_view(store@), name@),
{
    let n = store.len();
    let mut i: usize = 0;
    while i < n
        invariant
            i <= n,
            n == store@.len(),
            forall|k: int| 0 <= k < i ==> #[trigger] store_view(store@)[k].name != name@,
        decreases n - i,
    {
        if store[i].name == *name {
            proof {
                assert(store_view(store@)[i as int].name == name@);
            }
            return Some(i);
        }
        i += 1;
    }
    proof {
        if store_has(store_view(store@), name@) {
            let k = choose|k: int|
                0 <= k < store_view(store@).len() && #[trigger] store_view(store@)[k].name
                    == name@;
        }
    }
    None
}

/// The state of the subfolder the store holds at position `i`.
fn state_of_store_folder(
    store: &Vec<StoreFolderScan>,
    live: &Vec<DirEntryInfo>,
    i: usize,
) -> (r: SubFolderState)
    requires
        i < store@.len(),
    ensures
        r@ == spec_state_for_store(store_view(store@)[i as int], entries_view(live@)),
{
    let ghost fv = store_view(store@)[i as int];
    let memo = match &store[i].sidecar {
        Some(s) => crate::memo::parse_memo(s.as_str()),
        None => String::new(),
    };
    // Collect the generation directories, every entry but the sidecar.
    let sidecar = sidecar_file_name();
    let mut gens: Vec<String> = Vec::new();
    let n = store[i].entries.len();
    let mut k: usize = 0;
    while k < n
        invariant
            k <= n,
            i < store@.len(),
            n == store@[i as int].entries@.len(),
            fv == store_view(store@)[i as int],
            sidecar@ == spec_sidecar_file_name(),
            view_seq(gens@) == fv.entries.take(k as int).filter(gen_pred()).map_values(
                |e: DirEntryV| e.name,
            ),
        decreases n - k,
    {
        let ghost pre = fv.entries.take(k as int).filter(gen_pred());
        proof {
            assert(fv.entries[k as int] == store@[i as int].entries@[k as int]@);
            lemma_filter_take_step(fv.entries, gen_pred(), k as int);
        }
        let e = &store[i].entries[k];
        if e.is_dir && !(e.name == sidecar) {
            let ghost prev = gens@;
            gens.push(e.name.clone());
            proof {
                assert(gen_pred()(fv.entries[k as int]));
                assert(view_seq(gens@) =~~= view_seq(prev).push(fv.entries[k as int].name));
                assert(pre.push(fv.entries[k as int]).map_values(|e: DirEntryV| e.name) =~~= pre
                    .map_values(|e: DirEntryV| e.name).push(fv.entries[k as int].name));
            }
        } else {
            proof {
                assert(!gen_pred()(fv.entries[k as int]));
            }
        }
        k += 1;
    }
    proof {
        assert(fv.entries.take(n as int) =~~= fv.entries);
    }
    sort_strings(&mut gens);
    // Newest first.
    let ghost asc = gen_names(fv.entries).sort_by(lex_leq());
    let mut backups: Vec<BackupEntry> = Vec::new();
    let mut k: usize = gens.len();
    proof {
        assert(asc.len() == view_seq(gens@).len());
    }
    while k > 0
        invariant
            k <= gens@.len(),
            view_seq(gens@) == asc,
            asc.len() == gens@.len(),
            backups@.len() == gens@.len() - k,
            forall|j: int|
                0 <= j < backups@.len() ==> #[trigger] backups_view(backups@)[j]
                    == mk_backup_entry()(asc[asc.len() - 1 - j]),
        decreases k,
    {
        k -= 1;
        let ghost prevb = backups@;
        backups.push(BackupEntry { timestamp: gens[k].clone(), timestamp_raw: 0 });
        proof {
            assert(view_seq(gens@)[k as int] == gens@[k as int]@);
            assert(asc[k as int] == gens@[k as int]@);
            assert(backups_view(backups@) =~~= backups_view(prevb).push(
                mk_backup_entry()(asc[k as int]),
            ));
        }
    }
    proof {
        assert(backups_view(backups@) =~~= asc.reverse().map_values(mk_backup_entry()));
    }
    let source_exists = live_contains(live, &store[i].name);
    let r = SubFolderState { name: store[i].name.clone(), memo, backups, source_exists };
    proof {
        assert(r@ =~~= spec_state_for_store(fv, entries_view(live@)));
    }
    r
}

/// Reconciles the snapshot store's scan with the live root's listing into
/// the full ordered list of subfolder states: every subfolder of the store
/// with its memo, its generations newest first and whether its source
/// still exists, every live-only directory as a new subfolder, sorted by
/// name.  The result is a pure function of the two scans.
pub fn get_all_state(store: &Vec<StoreFolderScan>, live: &Vec<DirEntryInfo>) -> (r: Vec<
    SubFolderState,
>)
    requires
        distinct_store_names(store_view(store@)),
        distinct_entry_names(entries_view(live@)),
    ensures
        states_view(r@) == spec_get_all_state(store_view(store@), entries_view(live@)),
{
    let ghost sv = store_view(store@);
    let ghost lv = entries_view(live@);
    // Every subfolder name: the store's, then live-only directories.
    let mut names: Vec<String> = Vec::new();
    let n = store.len();
    let mut i: usize = 0;
    while i < n
        invariant
            i <= n,
            n == store@.len(),
            sv == store_view(store@),
            view_seq(names@) == store_names(sv).take(i as int),
        decreases n - i,
    {
        let ghost prevn = names@;
        names.push(store[i].name.clone());
        proof {
            assert(sv[i as int] == store@[i as int]@);
            assert(view_seq(names@) =~~= view_seq(prevn).push(store@[i as int].name@));
            assert(store_names(sv).take(i + 1) =~~= store_names(sv).take(i as int).push(
                sv[i as int].name,
            ));
        }
        i += 1;
    }
    proof {
        assert(store_names(sv).take(n as int) =~~= store_names(sv));
    }
    let m = live.len();
    let mut i: usize = 0;
    while i < m
        invariant
            i <= m,
            m == live@.len(),
            sv == store_view(store@),
            lv == entries_view(live@),
            view_seq(names@) == store_names(sv) + lv.take(i as int).filter(
                extra_pred(sv),
            ).map_values(|e: DirEntryV| e.name),
        decreases m - i,
    {
        let ghost pre = lv.take(i as int).filter(extra_pred(sv));
        proof {
            assert(lv[i as int] == live@[i as int]@);
            lemma_filter_take_step(lv, extra_pred(sv), i as int);
        }
        let e = &live[i];
        let mut fresh = false;
        if e.is_dir {
            match find_store(store, &e.name) {
                Some(_) => {
                    fresh = false;
                },
                None => {
                    fresh = true;
                },
            }
        }
        proof {
            assert(fresh == extra_pred(sv)(lv[i as int]));
        }
        if fresh {
            let ghost prevn = names@;
            names.push(e.name.clone());
            proof {
                assert(view_seq(names@) =~~= view_seq(prevn).push(lv[i as int].name));
                assert(pre.push(lv[i as int]).map_values(|e: DirEntryV| e.name) =~~= pre.map_values(
                    |e: DirEntryV| e.name,
                ).push(lv[i as int].name));
                assert(store_names(sv) + pre.map_values(|e: DirEntryV| e.name).push(
                    lv[i as int].name,
                ) =~~= (store_names(sv) + pre.map_values(|e: DirEntryV| e.name)).push(
                    lv[i as int].name,
                ));
            }
        }
        i += 1;
    }
    proof {
        assert(lv.take(m as int) =~~= lv);
    }
    sort_strings(&mut names);
    proof {
        assert(view_seq(names@) == all_names(sv, lv));
    }
    // Build each subfolder's state, in name order.
    let mut result: Vec<SubFolderState> = Vec::new();
    let total = names.len();
    let mut i: usize = 0;
    proof {
        assert(all_names(sv, lv).len() == total);
    }
    while i < total
        invariant
            i <= total,
            total == names@.len(),
            sv == store_view(store@),
            lv == entries_view(live@),
            distinct_store_names(sv),
            view_seq(names@) == all_names(sv, lv),
            states_view(result@) == spec_get_all_state(sv, lv).take(i as int),
        decreases total - i,
    {
        let ghost n_i = all_names(sv, lv)[i as int];
        proof {
            assert(names@[i as int]@ == n_i);
        }
        let st: SubFolderState = match find_store(store, &names[i]) {
            Some(fi) => {
                proof {
                    assert(store_has(sv, n_i));
                    let j = store_index(sv, n_i);
                    assert(sv[j].name == n_i);
                    if j != fi as int {
                        assert(sv[fi as int].name == n_i);
                    }
                }
                state_of_store_folder(store, live, fi)
            },
            None => {
                SubFolderState {
                    name: names[i].clone(),
                    memo: String::new(),
                    backups: Vec::new(),
                    source_exists: true,
                }
            },
        };
        proof {
            assert(st@ =~~= state_for(sv, lv)(n_i));
        }
        let ghost prevr = result@;
        result.push(st);
        proof {
            assert(states_view(result@) =~~= states_view(prevr).push(state_for(sv, lv)(n_i)));
            assert(spec_get_all_state(sv, lv)[i as int] == state_for(sv, lv)(n_i));
            assert(spec_get_all_state(sv, lv).take(i + 1) =~~= spec_get_all_state(sv, lv).take(
                i as int,
            ).push(spec_get_all_state(sv, lv)[i as int]));
        }
        i += 1;
    }
    proof {
        assert(spec_get_all_state(sv, lv).take(total as int) =~~= spec_get_all_state(sv, lv));
    }
    result
}

/// Idempotence of reconciliation: the state list is a pure function of the
/// two scans, so reconciling twice against the same on-disk state — two
/// scans that read back equal — yields identical ordered output.
pub proof fn lemma_reconcile_idempotent(
    store1: Seq<StoreFolderV>,
    live1: Seq<DirEntryV>,
    store2: Seq<StoreFolderV>,
    live2: Seq<DirEntryV>,
)
    requires
        store1 == store2,
        live1 == live2,
    ensures
        spec_get_all_state(store1, live1) == spec_get_all_state(store2, live2),
{
}


/// Whether any generation directory remains among a subfolder's entries —
/// any directory other than the memo sidecar.  After a generation is
/// deleted, a subfolder whose snapshot directory holds no generation any
/// more is removed entirely, and a memo sidecar alone does not keep it:
/// the memo is lost with the directory.
pub fn has_remaining_generations(entries: &Vec<DirEntryInfo>) -> (r: bool)
    ensures
        r == (exists|i: int|
            0 <= i < entries@.len() && gen_pred()(#[trigger] entries_view(entries@)[i])),
{
    let sidecar = sidecar_file_name();
    let n = entries.len();
    let mut i: usize = 0;
    while i < n
        invariant
            i <= n,
            n == entries@.len(),
            sidecar@ == spec_sidecar_file_name(),
            forall|k: int| 0 <= k < i ==> !gen_pred()(#[trigger] entries_view(entries@)[k]),
        decreases n - i,
    {
        let e = &entries[i];
        if e.is_dir && !(e.name == sidecar) {
            proof {
                assert(entries_view(entries@)[i as int] == entries@[i as int]@);
                assert(gen_pred()(entries_view(entries@)[i as int]));
            }
            return true;
        }
        proof {
            assert(entries_view(entries@)[i as int] == entries@[i as int]@);
        }
        i += 1;
    }
    false
}


/// Deterministic presentation: the reconciled list carries each subfolder
/// name it derives, in ascending lexicographic name order.
pub proof fn lemma_state_list_sorted(store: Seq<StoreFolderV>, live: Seq<DirEntryV>)
    ensures
        ({
            let out = spec_get_all_state(store, live);
            &&& forall|i: int|
                0 <= i < out.len() ==> #[trigger] out[i].name == all_names(store, live)[i]
            &&& forall|i: int, j: int|
                0 <= i < j < out.len() ==> crate::order::lex_le(out[i].name, out[j].name)
        }),
{
    let out = spec_get_all_state(store, live);
    let names = all_names(store, live);
    crate::order::lemma_lex_total_ordering();
    (store_names(store) + extra_names(store, live)).lemma_sort_by_ensures(lex_leq());
    assert forall|i: int| 0 <= i < out.len() implies #[trigger] out[i].name == names[i] by {
        assert(out[i] == state_for(store, live)(names[i]));
        if store_has(store, names[i]) {
            let k = store_index(store, names[i]);
            assert(store[k].name == names[i]);
        }
    }
    assert forall|i: int, j: int| 0 <= i < j < out.len() implies crate::order::lex_le(
        out[i].name,
        out[j].name,
    ) by {
        assert(lex_leq()(names[i], names[j]));
    }
}

} // verus!
