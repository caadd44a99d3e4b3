//! Deletion protection for `.strm` files: a large batch of deletions is held
//! back until the same files have been found missing in several consecutive
//! scans.
use vstd::prelude::*;
use crate::alist2strm::config::{string_views, SmartProtectionConfig};
use crate::outside::{path_eq, path_eq_spec, path_join, path_join_spec, path_strip_prefix, path_strip_prefix_spec};
use crate::text::{
    chars_of, concat, lacks, lemma_replace_lacks, push_all, replace_all, replace_all_exec, str_eq, string_of,
    to_string,
};

verus! {

// ---------------------------------------------------------------------------
// Model: the protected counts are a map from relative path to the number of
// consecutive large scans that found the file missing.
// ---------------------------------------------------------------------------

/// The map held by a list of (key, count) entries; a later entry wins.
pub open spec fn entries_map(es: Seq<(String, usize)>) -> Map<Seq<char>, nat>
    decreases es.len(),
{
    if es.len() == 0 {
        Map::empty()
    } else {
        entries_map(es.drop_last()).insert(es.last().0@, es.last().1 as nat)
    }
}

/// No key occurs twice.
pub open spec fn distinct_keys(es: Seq<(String, usize)>) -> bool {
    forall|i: int, j: int| 0 <= i < j < es.len() ==> es[i].0@ != es[j].0@
}

/// The entries of `m` that `keep` keeps.
pub open spec fn restrict(m: Map<Seq<char>, nat>, keep: spec_fn(Seq<char>, nat) -> bool) -> Map<Seq<char>, nat> {
    Map::new(|k: Seq<char>| m.contains_key(k) && keep(k, m[k]), |k: Seq<char>| m[k])
}

/// The count of `k` in `m`, zero when absent.
pub open spec fn count_of(m: Map<Seq<char>, nat>, k: Seq<char>) -> nat {
    if m.contains_key(k) {
        m[k]
    } else {
        0
    }
}

/// `m` with one added to the count of each key of `ks` (once per occurrence).
pub open spec fn bump(m: Map<Seq<char>, nat>, ks: Seq<Seq<char>>) -> Map<Seq<char>, nat>
    decreases ks.len(),
{
    if ks.len() == 0 {
        m
    } else {
        let b = bump(m, ks.drop_last());
        b.insert(ks.last(), count_of(b, ks.last()) + 1)
    }
}

/// The number of occurrences of `k` in `ks`.
pub open spec fn occurrences(ks: Seq<Seq<char>>, k: Seq<char>) -> nat
    decreases ks.len(),
{
    if ks.len() == 0 {
        0
    } else {
        occurrences(ks.drop_last(), k) + if ks.last() == k { 1nat } else { 0nat }
    }
}

/// The paths of `ps`, each kept only the first time an equal path occurs.
pub open spec fn dedup_paths(ps: Seq<Seq<char>>) -> Seq<Seq<char>>
    decreases ps.len(),
{
    if ps.len() == 0 {
        seq![]
    } else {
        let d = dedup_paths(ps.drop_last());
        if exists|j: int| 0 <= j < d.len() && path_eq_spec(#[trigger] d[j], ps.last()) {
            d
        } else {
            d.push(ps.last())
        }
    }
}

/// Whether `p` equals one of the present paths.
pub open spec fn is_present(p: Seq<char>, present: Seq<Seq<char>>) -> bool {
    exists|j: int| 0 <= j < present.len() && path_eq_spec(p, #[trigger] present[j])
}

/// The key under which a local path is counted: the path relative to the
/// target directory (the whole path when it is not below it), with `\`
/// turned into `/`.
pub open spec fn relative_key(target_dir: Seq<char>, p: Seq<char>) -> Seq<char> {
    let r = match path_strip_prefix_spec(p, target_dir) {
        Some(x) => x,
        None => p,
    };
    replace_all(r, seq!['\\'], seq!['/'])
}

/// The entries that survive the start of a scan: those whose file is not
/// present again.
pub open spec fn retained(m: Map<Seq<char>, nat>, target_dir: Seq<char>, present: Seq<Seq<char>>) -> Map<Seq<char>, nat> {
    restrict(m, |k: Seq<char>, n: nat| !is_present(path_join_spec(target_dir, k), present))
}

/// The counts after a large scan, before ready entries leave.
pub open spec fn bumped(
    m: Map<Seq<char>, nat>,
    target_dir: Seq<char>,
    present: Seq<Seq<char>>,
    to_delete: Seq<Seq<char>>,
) -> Map<Seq<char>, nat> {
    bump(retained(m, target_dir, present), dedup_paths(to_delete).map_values(|p: Seq<char>| relative_key(target_dir, p)))
}

/// A key is ready once its count reaches the grace count.
pub open spec fn is_ready(b: Map<Seq<char>, nat>, k: Seq<char>, grace: nat) -> bool {
    b.contains_key(k) && b[k] >= grace
}

/// The counts that stay after a large scan: those below the grace count.
pub open spec fn after_large_scan(b: Map<Seq<char>, nat>, grace: nat) -> Map<Seq<char>, nat> {
    restrict(b, |k: Seq<char>, n: nat| n < grace)
}

// ---------------------------------------------------------------------------
// Lemmas on the model.
// ---------------------------------------------------------------------------

pub proof fn lemma_entries_map_contains(es: Seq<(String, usize)>, k: Seq<char>)
    ensures
        entries_map(es).contains_key(k) <==> exists|i: int| 0 <= i < es.len() && (#[trigger] es[i]).0@ == k,
    decreases es.len(),
{
    if es.len() > 0 {
        lemma_entries_map_contains(es.drop_last(), k);
        if entries_map(es.drop_last()).contains_key(k) {
            let i = choose|i: int| 0 <= i < es.len() - 1 && (#[trigger] es.drop_last()[i]).0@ == k;
            assert(es[i] == es.drop_last()[i]);
        }
        if exists|i: int| 0 <= i < es.len() && (#[trigger] es[i]).0@ == k {
            let i = choose|i: int| 0 <= i < es.len() && (#[trigger] es[i]).0@ == k;
            if i < es.len() - 1 {
                assert(es.drop_last()[i] == es[i]);
            }
        }
    }
}

pub proof fn lemma_entries_map_value(es: Seq<(String, usize)>, i: int)
    requires
        distinct_keys(es),
        0 <= i < es.len(),
    ensures
        entries_map(es).contains_key(es[i].0@),
        entries_map(es)[es[i].0@] == es[i].1 as nat,
    decreases es.len(),
{
    if i < es.len() - 1 {
        assert(es.drop_last()[i] == es[i]);
        lemma_entries_map_value(es.drop_last(), i);
        assert(es.last().0@ != es[i].0@);
    }
}

pub proof fn lemma_entries_map_update(es: Seq<(String, usize)>, i: int, e: (String, usize))
    requires
        distinct_keys(es),
        0 <= i < es.len(),
        e.0@ == es[i].0@,
    ensures
        distinct_keys(es.update(i, e)),
        entries_map(es.update(i, e)) == entries_map(es).insert(e.0@, e.1 as nat),
    decreases es.len(),
{
    let u = es.update(i, e);
    if i == es.len() - 1 {
        assert(u.drop_last() =~= es.drop_last());
        lemma_entries_map_contains(es.drop_last(), e.0@);
        assert(entries_map(u) =~= entries_map(es).insert(e.0@, e.1 as nat));
    } else {
        lemma_entries_map_update(es.drop_last(), i, e);
        assert(u.drop_last() =~= es.drop_last().update(i, e));
        assert(es.last().0@ != e.0@);
        assert(entries_map(u) =~= entries_map(es).insert(e.0@, e.1 as nat));
    }
}

pub proof fn lemma_count_of_bump(m: Map<Seq<char>, nat>, ks: Seq<Seq<char>>, k: Seq<char>)
    ensures
        count_of(bump(m, ks), k) == count_of(m, k) + occurrences(ks, k),
        bump(m, ks).contains_key(k) <==> (m.contains_key(k) || occurrences(ks, k) > 0),
        forall|x: Seq<char>| #[trigger] bump(m, ks).contains_key(x) ==> bump(m, ks)[x] > 0 || m.contains_key(x),
    decreases ks.len(),
{
    if ks.len() > 0 {
        lemma_count_of_bump(m, ks.drop_last(), k);
        assert forall|x: Seq<char>| #[trigger] bump(m, ks).contains_key(x) implies bump(m, ks)[x] > 0 || m.contains_key(x) by {
            lemma_count_of_bump(m, ks.drop_last(), x);
        }
    }
}

pub proof fn lemma_restrict_insert(
    m: Map<Seq<char>, nat>,
    k: Seq<char>,
    v: nat,
    keep: spec_fn(Seq<char>, nat) -> bool,
)
    requires
        !m.contains_key(k),
    ensures
        keep(k, v) ==> restrict(m.insert(k, v), keep) == restrict(m, keep).insert(k, v),
        !keep(k, v) ==> restrict(m.insert(k, v), keep) == restrict(m, keep),
{
    if keep(k, v) {
        assert(restrict(m.insert(k, v), keep) =~= restrict(m, keep).insert(k, v));
    } else {
        assert(restrict(m.insert(k, v), keep) =~= restrict(m, keep));
    }
}

pub proof fn lemma_dedup_len(ps: Seq<Seq<char>>)
    ensures
        dedup_paths(ps).len() <= ps.len(),
    decreases ps.len(),
{
    if ps.len() > 0 {
        lemma_dedup_len(ps.drop_last());
    }
}

pub proof fn lemma_key_in_prefix(es: Seq<(String, usize)>, i: int)
    requires
        distinct_keys(es),
        0 <= i < es.len(),
    ensures
        !entries_map(es.take(i)).contains_key(es[i].0@),
{
    lemma_entries_map_contains(es.take(i), es[i].0@);
    if entries_map(es.take(i)).contains_key(es[i].0@) {
        let j = choose|j: int| 0 <= j < i && (#[trigger] es.take(i)[j]).0@ == es[i].0@;
        assert(es.take(i)[j] == es[j]);
    }
}

/// A large scan raises the count of a relative path by the number of times it
/// occurs among the batch (duplicate paths taken once), starting from zero
/// when the path was not counted or its file is present again.
pub proof fn law_large_scan_count(
    m: Map<Seq<char>, nat>,
    t: Seq<char>,
    present: Seq<Seq<char>>,
    to_delete: Seq<Seq<char>>,
    k: Seq<char>,
)
    ensures
        count_of(bumped(m, t, present, to_delete), k) == (if is_present(path_join_spec(t, k), present) {
            0
        } else {
            count_of(m, k)
        }) + occurrences(dedup_paths(to_delete).map_values(|p: Seq<char>| relative_key(t, p)), k),
{
    let ks = dedup_paths(to_delete).map_values(|p: Seq<char>| relative_key(t, p));
    lemma_count_of_bump(retained(m, t, present), ks, k);
}

/// The grace rule for one file: when a large scan finds the file of a
/// relative path `k` missing once more (its key occurs once in the batch and
/// the file is not present), a previous count `c` becomes `c + 1`; the file
/// is deleted exactly when `c + 1` reaches the grace count, and otherwise it
/// stays counted with `c + 1`.
pub proof fn law_grace_step(
    m: Map<Seq<char>, nat>,
    t: Seq<char>,
    present: Seq<Seq<char>>,
    to_delete: Seq<Seq<char>>,
    k: Seq<char>,
    g: nat,
)
    requires
        !is_present(path_join_spec(t, k), present),
        occurrences(dedup_paths(to_delete).map_values(|p: Seq<char>| relative_key(t, p)), k) == 1,
    ensures
        ({
            let b = bumped(m, t, present, to_delete);
            &&& b.contains_key(k)
            &&& b[k] == count_of(m, k) + 1
            &&& is_ready(b, k, g) <==> count_of(m, k) + 1 >= g
            &&& count_of(m, k) + 1 < g ==> after_large_scan(b, g).contains_key(k)
                && after_large_scan(b, g)[k] == count_of(m, k) + 1
            &&& count_of(m, k) + 1 >= g ==> !after_large_scan(b, g).contains_key(k)
        }),
{
    let ks = dedup_paths(to_delete).map_values(|p: Seq<char>| relative_key(t, p));
    lemma_count_of_bump(retained(m, t, present), ks, k);
    law_large_scan_count(m, t, present, to_delete, k);
}

/// The counts after a series of large scans, each given by the paths present
/// and the batch it would delete.
pub open spec fn after_large_scans(
    m: Map<Seq<char>, nat>,
    t: Seq<char>,
    scans: Seq<(Seq<Seq<char>>, Seq<Seq<char>>)>,
    g: nat,
) -> Map<Seq<char>, nat>
    decreases scans.len(),
{
    if scans.len() == 0 {
        m
    } else {
        let before = after_large_scans(m, t, scans.drop_last(), g);
        after_large_scan(bumped(before, t, scans.last().0, scans.last().1), g)
    }
}

/// Consecutive large scans that each find the file of `k` missing (its key
/// once in each batch, its file present in none) raise its count by one per
/// scan, as long as the count stays below the grace count: the file is held
/// back for all of them.
pub proof fn law_consecutive_large_scans(
    m: Map<Seq<char>, nat>,
    t: Seq<char>,
    scans: Seq<(Seq<Seq<char>>, Seq<Seq<char>>)>,
    k: Seq<char>,
    g: nat,
)
    requires
        forall|i: int| 0 <= i < scans.len() ==> !is_present(path_join_spec(t, k), #[trigger] scans[i].0),
        forall|i: int| 0 <= i < scans.len() ==> occurrences(
            dedup_paths((#[trigger] scans[i]).1).map_values(|p: Seq<char>| relative_key(t, p)),
            k,
        ) == 1,
        count_of(m, k) + scans.len() < g,
    ensures
        after_large_scans(m, t, scans, g).contains_key(k) || scans.len() == 0,
        count_of(after_large_scans(m, t, scans, g), k) == count_of(m, k) + scans.len(),
    decreases scans.len(),
{
    if scans.len() > 0 {
        let prev = scans.drop_last();
        assert forall|i: int| 0 <= i < prev.len() implies !is_present(path_join_spec(t, k), #[trigger] prev[i].0) by {
            assert(prev[i] == scans[i]);
        }
        assert forall|i: int| 0 <= i < prev.len() implies occurrences(
            dedup_paths((#[trigger] prev[i]).1).map_values(|p: Seq<char>| relative_key(t, p)),
            k,
        ) == 1 by {
            assert(prev[i] == scans[i]);
        }
        law_consecutive_large_scans(m, t, prev, k, g);
        let before = after_large_scans(m, t, prev, g);
        let last = scans.last();
        assert(last == scans[scans.len() - 1]);
        law_grace_step(before, t, last.0, last.1, k, g);
    }
}

/// A small batch leaves every count unchanged except those of files present
/// again, which are dropped; and nothing is counted for the batch.
pub proof fn law_small_batch_counts(m: Map<Seq<char>, nat>, t: Seq<char>, present: Seq<Seq<char>>, k: Seq<char>)
    ensures
        retained(m, t, present).contains_key(k) <==> (m.contains_key(k) && !is_present(path_join_spec(t, k), present)),
        retained(m, t, present).contains_key(k) ==> retained(m, t, present)[k] == m[k],
{
}

/// What `Path::strip_prefix` promises of a path below `t`: joined back onto
/// `t`, what it returns gives the path again.
pub open spec fn strip_ok(t: Seq<char>, p: Seq<char>) -> bool {
    match path_strip_prefix_spec(p, t) {
        Some(r) => path_eq_spec(path_join_spec(t, r), p) && forall|c: Seq<char>|
            #[trigger] path_eq_spec(path_join_spec(t, r), c) == path_eq_spec(p, c),
        None => true,
    }
}

/// No path of the batch is (as a path) one of the present paths.
pub open spec fn batch_absent(to_delete: Seq<Seq<char>>, present: Seq<Seq<char>>) -> bool {
    forall|i: int| 0 <= i < to_delete.len() ==> !is_present(#[trigger] to_delete[i], present)
}

/// When the batch lies below `t` and none of its paths is present, no key
/// that a large scan counts stands for a present file.
pub proof fn lemma_counted_not_present(
    m: Map<Seq<char>, nat>,
    t: Seq<char>,
    present: Seq<Seq<char>>,
    to_delete: Seq<Seq<char>>,
    k: Seq<char>,
)
    requires
        batch_below(t, to_delete),
        batch_absent(to_delete, present),
        forall|j: int| 0 <= j < dedup_paths(to_delete).len() ==> strip_ok(t, #[trigger] dedup_paths(to_delete)[j]),
        bumped(m, t, present, to_delete).contains_key(k),
    ensures
        !is_present(path_join_spec(t, k), present),
{
    let r0 = retained(m, t, present);
    let ks = dedup_paths(to_delete).map_values(|p: Seq<char>| relative_key(t, p));
    lemma_count_of_bump(r0, ks, k);
    if !r0.contains_key(k) {
        lemma_occurs_in(ks, k);
        let j = choose|j: int| 0 <= j < ks.len() && ks[j] == k;
        let d = dedup_paths(to_delete);
        let p = d[j];
        assert(ks[j] == relative_key(t, p));
        lemma_dedup_subset(to_delete);
        assert(to_delete.contains(p));
        let q = choose|q: int| 0 <= q < to_delete.len() && to_delete[q] == p;
        assert(path_strip_prefix_spec(to_delete[q], t) is Some);
        let r = path_strip_prefix_spec(p, t)->0;
        lemma_replace_lacks(r, '\\', seq!['/']);
        assert(k == r);
        assert(strip_ok(t, p));
        assert(!is_present(to_delete[q], present));
        if is_present(path_join_spec(t, k), present) {
            let w = choose|w: int| 0 <= w < present.len() && path_eq_spec(path_join_spec(t, k), #[trigger] present[w]);
            assert(path_eq_spec(path_join_spec(t, r), present[w]) == path_eq_spec(p, present[w]));
            assert(is_present(p, present));
        }
    }
}

/// Every path of the batch lies below `t` (by `Path::strip_prefix`) and its
/// part below `t` holds no `\`.
pub open spec fn batch_below(t: Seq<char>, to_delete: Seq<Seq<char>>) -> bool {
    forall|i: int| 0 <= i < to_delete.len() ==> match #[trigger] path_strip_prefix_spec(to_delete[i], t) {
        Some(r) => lacks(r, '\\'),
        None => false,
    }
}

/// Every count lies between 1 and the grace count (excluded): the counts
/// that protection keeps between scans.
pub open spec fn counts_below(m: Map<Seq<char>, nat>, g: nat) -> bool {
    forall|k: Seq<char>| #[trigger] m.contains_key(k) ==> 1 <= m[k] < g
}

/// A key that occurs in a list is one of its entries.
pub proof fn lemma_occurs_in(ks: Seq<Seq<char>>, k: Seq<char>)
    requires
        occurrences(ks, k) > 0,
    ensures
        exists|j: int| 0 <= j < ks.len() && ks[j] == k,
    decreases ks.len(),
{
    if ks.last() != k {
        lemma_occurs_in(ks.drop_last(), k);
        let j = choose|j: int| 0 <= j < ks.drop_last().len() && ks.drop_last()[j] == k;
        assert(ks[j] == k);
    } else {
        assert(ks[ks.len() - 1] == k);
    }
}

/// Each path kept by `dedup_paths` is one of the given paths.
pub proof fn lemma_dedup_subset(ps: Seq<Seq<char>>)
    ensures
        forall|j: int| 0 <= j < dedup_paths(ps).len() ==> ps.contains(#[trigger] dedup_paths(ps)[j]),
    decreases ps.len(),
{
    if ps.len() > 0 {
        lemma_dedup_subset(ps.drop_last());
        let d = dedup_paths(ps.drop_last());
        assert forall|j: int| 0 <= j < dedup_paths(ps).len() implies ps.contains(#[trigger] dedup_paths(ps)[j]) by {
            if j < d.len() {
                assert(dedup_paths(ps)[j] == d[j]);
                let q = choose|q: int| 0 <= q < ps.drop_last().len() && ps.drop_last()[q] == d[j];
                assert(ps[q] == d[j]);
            } else {
                assert(dedup_paths(ps)[j] == ps.last());
                assert(ps[ps.len() - 1] == ps.last());
            }
        }
    }
}

/// Counts between 1 and the grace count stay so through a scan: the counts
/// that survive it and those that stay after a large one.
pub proof fn lemma_counts_below_kept(
    m: Map<Seq<char>, nat>,
    t: Seq<char>,
    present: Seq<Seq<char>>,
    to_delete: Seq<Seq<char>>,
    g: nat,
)
    requires
        counts_below(m, g),
    ensures
        counts_below(retained(m, t, present), g),
        counts_below(after_large_scan(bumped(m, t, present, to_delete), g), g),
{
    let r = retained(m, t, present);
    let ks = dedup_paths(to_delete).map_values(|p: Seq<char>| relative_key(t, p));
    let b = bumped(m, t, present, to_delete);
    assert forall|k: Seq<char>| #[trigger] after_large_scan(b, g).contains_key(k) implies 1 <= after_large_scan(b, g)[k]
        < g by {
        lemma_count_of_bump(r, ks, k);
    }
}

/// Under counts below the grace count, a path released by a large scan is
/// the path of a key that the batch raised.
pub proof fn lemma_ready_from_batch(
    m: Map<Seq<char>, nat>,
    t: Seq<char>,
    present: Seq<Seq<char>>,
    to_delete: Seq<Seq<char>>,
    g: nat,
    k: Seq<char>,
)
    requires
        counts_below(m, g),
        is_ready(bumped(m, t, present, to_delete), k, g),
    ensures
        exists|j: int| 0 <= j < dedup_paths(to_delete).len() && relative_key(t, #[trigger] dedup_paths(to_delete)[j]) == k,
{
    let r = retained(m, t, present);
    let ks = dedup_paths(to_delete).map_values(|p: Seq<char>| relative_key(t, p));
    lemma_count_of_bump(r, ks, k);
    lemma_occurs_in(ks, k);
    let j = choose|j: int| 0 <= j < ks.len() && ks[j] == k;
    assert(relative_key(t, dedup_paths(to_delete)[j]) == k);
}

// ---------------------------------------------------------------------------
// The manager.
// ---------------------------------------------------------------------------

/// Holds, per relative `.strm` path, how many consecutive large scans found
/// the file missing.
#[derive(Debug)]
pub struct ProtectionManager {
    target_dir: String,
    state_file: String,
    threshold: usize,
    grace_scans: usize,
    protected: Vec<(String, usize)>,
}

impl ProtectionManager {
    /// No relative path is counted twice.
    #[verifier::type_invariant]
    spec fn wf(&self) -> bool {
        distinct_keys(self.protected@)
    }

    /// The counts, by relative path.
    pub closed spec fn counts(&self) -> Map<Seq<char>, nat> {
        entries_map(self.protected@)
    }

    pub closed spec fn target_dir_view(&self) -> Seq<char> {
        self.target_dir@
    }

    pub closed spec fn state_file_view(&self) -> Seq<char> {
        self.state_file@
    }

    pub closed spec fn threshold_view(&self) -> nat {
        self.threshold as nat
    }

    pub closed spec fn grace_view(&self) -> nat {
        self.grace_scans as nat
    }

    /// Every count can grow by `extra` without leaving `usize`.
    pub open spec fn counts_fit(&self, extra: nat) -> bool {
        forall|k: Seq<char>| #[trigger] self.counts().contains_key(k) ==> self.counts()[k] + extra <= usize::MAX
    }

    /// A manager for the `.strm` files below `target_dir`, whose state file is
    /// `.autofilm_strm_<task_id>.json` there, continuing from the counts that
    /// were loaded from it (a later entry for the same path wins).
    pub fn new(target_dir: String, task_id: &str, config: &SmartProtectionConfig, loaded: Vec<(String, usize)>) -> (res: Self)
        ensures
            res.target_dir_view() == target_dir@,
            res.state_file_view() == path_join_spec(target_dir@, ".autofilm_strm_"@ + task_id@ + ".json"@),
            res.threshold_view() == config.threshold,
            res.grace_view() == config.grace_scans,
            res.counts() == entries_map(loaded@),
    {
        let state_file = Self::state_file_for(target_dir.as_str(), task_id);
        let mut protected: Vec<(String, usize)> = Vec::new();
        let mut i: usize = 0;
        while i < loaded.len()
            invariant
                i <= loaded.len(),
                distinct_keys(protected@),
                entries_map(protected@) == entries_map(loaded@.take(i as int)),
            decreases loaded.len() - i,
        {
            assert(loaded@.take(i + 1).drop_last() =~= loaded@.take(i as int));
            let key = to_string(loaded[i].0.as_str());
            let v = loaded[i].1;
            Self::set_count(&mut protected, key, v);
            i = i + 1;
        }
        assert(loaded@.take(loaded.len() as int) =~= loaded@);
        ProtectionManager {
            target_dir,
            state_file,
            threshold: config.threshold,
            grace_scans: config.grace_scans,
            protected,
        }
    }

    /// The state file of a task's protection: `.autofilm_strm_<task_id>.json`
    /// in the target directory.
    pub fn state_file_for(target_dir: &str, task_id: &str) -> (res: String)
        ensures
            res@ == path_join_spec(target_dir@, ".autofilm_strm_"@ + task_id@ + ".json"@),
    {
        let a = concat(".autofilm_strm_", task_id);
        let b = concat(a.as_str(), ".json");
        path_join(target_dir, b.as_str())
    }

    /// The index of `key` among the entries.
    fn find_key(es: &Vec<(String, usize)>, key: &str) -> (res: Option<usize>)
        ensures
            match res {
                Some(i) => i < es.len() && es@[i as int].0@ == key@,
                None => forall|i: int| 0 <= i < es.len() ==> (#[trigger] es@[i]).0@ != key@,
            },
    {
        let mut i: usize = 0;
        while i < es.len()
            invariant
                i <= es.len(),
                forall|j: int| 0 <= j < i ==> (#[trigger] es@[j]).0@ != key@,
            decreases es.len() - i,
        {
            if str_eq(es[i].0.as_str(), key) {
                return Some(i);
            }
            i = i + 1;
        }
        None
    }

    /// Sets the count of `key`.
    fn set_count(es: &mut Vec<(String, usize)>, key: String, v: usize)
        requires
            distinct_keys(old(es)@),
        ensures
            distinct_keys(final(es)@),
            entries_map(final(es)@) == entries_map(old(es)@).insert(key@, v as nat),
            forall|j: int| 0 <= j < old(es)@.len() ==> #[trigger] final(es)@[j].0@ == old(es)@[j].0@
                && (old(es)@[j].0@ != key@ ==> final(es)@[j].1 == old(es)@[j].1),
            final(es)@.len() == old(es)@.len() || (final(es)@.len() == old(es)@.len() + 1
                && final(es)@.last().0@ == key@ && final(es)@.last().1 == v),
            forall|j: int| 0 <= j < old(es)@.len() && old(es)@[j].0@ == key@ ==> #[trigger] final(es)@[j].1 == v,
    {
        match Self::find_key(es, key.as_str()) {
            Some(i) => {
                proof {
                    lemma_entries_map_update(es@, i as int, (key, v));
                }
                es.set(i, (key, v));
            },
            None => {
                let ghost before = es@;
                es.push((key, v));
                proof {
                    assert(es@.drop_last() =~= before);
                }
            },
        }
    }

    /// Decides which of the `.strm` files that a scan would delete are
    /// deleted now.
    ///
    /// Files present again leave the counts. A batch (duplicates taken once)
    /// smaller than the threshold is deleted at once. Otherwise each file of
    /// the batch has its count raised by one, and the files whose count has
    /// reached the grace count are returned and leave the counts.
    pub fn process(&mut self, strm_to_delete: Vec<String>, strm_present: &Vec<String>) -> (res: Vec<String>)
        requires
            old(self).counts_fit(strm_to_delete@.len() as nat),
        ensures
            final(self).target_dir_view() == old(self).target_dir_view(),
            final(self).state_file_view() == old(self).state_file_view(),
            final(self).threshold_view() == old(self).threshold_view(),
            final(self).grace_view() == old(self).grace_view(),
            ({
                let t = old(self).target_dir_view();
                let present = string_views(strm_present@);
                let del = dedup_paths(string_views(strm_to_delete@));
                let b = bumped(old(self).counts(), t, present, string_views(strm_to_delete@));
                let g = old(self).grace_view();
                if del.len() < old(self).threshold_view() {
                    &&& final(self).counts() == retained(old(self).counts(), t, present)
                    &&& string_views(res@) == del
                } else {
                    &&& final(self).counts() == after_large_scan(b, g)
                    &&& forall|x: Seq<char>| string_views(res@).contains(x) <==> exists|k: Seq<char>|
                        #[trigger] is_ready(b, k, g) && x == path_join_spec(t, k)
                }
            }),
            // Counts kept between scans stay between 1 and the grace count.
            counts_below(old(self).counts(), old(self).grace_view()) ==> counts_below(
                final(self).counts(),
                old(self).grace_view(),
            ),
            // Only paths of the batch are released: the same texts for a small
            // batch; for a large one, paths equal (as paths) to ones of the
            // batch, when the counts were in range and the batch lies below the
            // target directory.
            // A file present in this scan is neither released nor counted,
            // when the batch lies below the target directory and holds no
            // present path.
            batch_below(old(self).target_dir_view(), string_views(strm_to_delete@))
                && batch_absent(string_views(strm_to_delete@), string_views(strm_present@)) ==> (
                (forall|x: Seq<char>| #[trigger] string_views(res@).contains(x)
                    ==> !is_present(x, string_views(strm_present@)))
                && (forall|k: Seq<char>| #[trigger] final(self).counts().contains_key(k)
                    ==> !is_present(path_join_spec(old(self).target_dir_view(), k), string_views(strm_present@)))),
            forall|x: Seq<char>| #[trigger] string_views(res@).contains(x) ==> (
                string_views(strm_to_delete@).contains(x) || (
                    counts_below(old(self).counts(), old(self).grace_view())
                    && batch_below(old(self).target_dir_view(), string_views(strm_to_delete@))
                    ==> exists|i: int| 0 <= i < strm_to_delete@.len()
                        && path_eq_spec(x, #[trigger] string_views(strm_to_delete@)[i]))),
    {
        proof {
            use_type_invariant(&*self);
        }
        let ghost t = self.target_dir@;
        let ghost present = string_views(strm_present@);
        let ghost old_counts = entries_map(self.protected@);
        let ghost keep_fn = |k: Seq<char>, n: nat| !is_present(path_join_spec(t, k), present);

        // Files present again leave the counts.
        let mut kept: Vec<(String, usize)> = Vec::new();
        let mut i: usize = 0;
        while i < self.protected.len()
            invariant
                i <= self.protected.len(),
                t == self.target_dir@,
                distinct_keys(self.protected@),
                distinct_keys(kept@),
                entries_map(kept@) == restrict(entries_map(self.protected@.take(i as int)), keep_fn),
                forall|j: int| 0 <= j < kept@.len() ==> entries_map(self.protected@.take(i as int)).contains_key(
                    #[trigger] kept@[j].0@,
                ),
                keep_fn == (|k: Seq<char>, n: nat| !is_present(path_join_spec(t, k), present)),
                present == string_views(strm_present@),
            decreases self.protected.len() - i,
        {
            let ghost prefix = self.protected@.take(i as int);
            assert(self.protected@.take(i + 1).drop_last() =~= prefix);
            proof {
                lemma_key_in_prefix(self.protected@, i as int);
            }
            let joined = path_join(self.target_dir.as_str(), self.protected[i].0.as_str());
            let mut found = false;
            let mut j: usize = 0;
            while j < strm_present.len()
                invariant
                    j <= strm_present.len(),
                    found == exists|q: int| 0 <= q < j && path_eq_spec(joined@, #[trigger] present[q]),
                    present == string_views(strm_present@),
                decreases strm_present.len() - j,
            {
                let e = path_eq(joined.as_str(), strm_present[j].as_str());
                assert(present[j as int] == strm_present@[j as int]@);
                if e {
                    found = true;
                }
                j = j + 1;
            }
            let ghost k = self.protected@[i as int].0@;
            let ghost v = self.protected@[i as int].1 as nat;
            proof {
                lemma_restrict_insert(entries_map(prefix), k, v, keep_fn);
                assert(found == !keep_fn(k, v));
            }
            if !found {
                let key = to_string(self.protected[i].0.as_str());
                let ghost before = kept@;
                kept.push((key, self.protected[i].1));
                proof {
                    assert(kept@.drop_last() =~= before);
                    assert forall|a: int, b: int| 0 <= a < b < kept@.len() implies kept@[a].0@ != kept@[b].0@ by {
                        if b == kept@.len() - 1 {
                            assert(entries_map(prefix).contains_key(before[a].0@));
                        }
                    }
                }
            }
            i = i + 1;
            assert forall|q: int| 0 <= q < kept@.len() implies entries_map(self.protected@.take(i as int)).contains_key(
                #[trigger] kept@[q].0@,
            ) by {
                lemma_entries_map_contains(self.protected@.take(i as int), kept@[q].0@);
                lemma_entries_map_contains(prefix, kept@[q].0@);
                if q < kept@.len() - 1 || found {
                    let m = choose|m: int| 0 <= m < prefix.len() && (#[trigger] prefix[m]).0@ == kept@[q].0@;
                    assert(self.protected@.take(i as int)[m] == prefix[m]);
                } else {
                    assert(self.protected@.take(i as int)[i - 1] == self.protected@[i - 1]);
                }
            }
        }
        assert(self.protected@.take(self.protected@.len() as int) =~= self.protected@);
        assert(entries_map(kept@) == retained(old_counts, t, present));

        // The batch, each path once.
        let ghost to_del = string_views(strm_to_delete@);
        let mut del: Vec<String> = Vec::new();
        let mut i: usize = 0;
        while i < strm_to_delete.len()
            invariant
                i <= strm_to_delete.len(),
                to_del == string_views(strm_to_delete@),
                string_views(del@) == dedup_paths(to_del.take(i as int)),
            decreases strm_to_delete.len() - i,
        {
            let ghost d0 = string_views(del@);
            assert(to_del.take(i + 1).drop_last() =~= to_del.take(i as int));
            let mut seen = false;
            let mut j: usize = 0;
            while j < del.len()
                invariant
                    j <= del.len(),
                    d0 == string_views(del@),
                    seen == exists|q: int| 0 <= q < j && path_eq_spec(#[trigger] d0[q], to_del[i as int]),
                    to_del == string_views(strm_to_delete@),
                    i < strm_to_delete.len(),
                decreases del.len() - j,
            {
                let e = path_eq(del[j].as_str(), strm_to_delete[i].as_str());
                assert(d0[j as int] == del@[j as int]@);
                assert(to_del[i as int] == strm_to_delete@[i as int]@);
                if e {
                    seen = true;
                }
                j = j + 1;
            }
            assert(to_del.take(i + 1).last() == to_del[i as int]);
            if !seen {
                del.push(to_string(strm_to_delete[i].as_str()));
                assert(string_views(del@) =~= d0.push(to_del[i as int]));
            }
            i = i + 1;
        }
        assert(to_del.take(to_del.len() as int) =~= to_del);
        proof {
            lemma_dedup_len(to_del);
        }

        if del.len() < self.threshold {
            proof {
                assert(old_counts == old(self).counts());
                assert(entries_map(kept@) == retained(old(self).counts(), t, present));
                assert(string_views(del@) == dedup_paths(string_views(strm_to_delete@)));
            }
            self.protected = kept;
            proof {
                lemma_dedup_subset(to_del);
                if counts_below(old(self).counts(), old(self).grace_view()) {
                    lemma_counts_below_kept(old_counts, t, present, to_del, old(self).grace_view());
                }
                assert forall|x: Seq<char>| #[trigger] string_views(del@).contains(x) implies to_del.contains(x) by {
                    let q = choose|q: int| 0 <= q < string_views(del@).len() && string_views(del@)[q] == x;
                    assert(dedup_paths(to_del)[q] == x);
                }
                if batch_absent(to_del, present) {
                    assert forall|x: Seq<char>| #[trigger] string_views(del@).contains(x) implies !is_present(x, present) by {
                        assert(to_del.contains(x));
                        let q = choose|q: int| 0 <= q < to_del.len() && to_del[q] == x;
                    }
                }
            }
            return del;
        }

        // A large batch: each file of it is counted once more.
        let ghost rels = string_views(del@).map_values(|p: Seq<char>| relative_key(t, p));
        let ghost base = entries_map(kept@);
        proof {
            assert forall|k: Seq<char>| #[trigger] base.contains_key(k) implies base[k] + (del@.len() - 0) <= usize::MAX by {
                assert(old_counts.contains_key(k));
                assert(old(self).counts().contains_key(k));
            }
            assert(rels.take(0) =~= Seq::<Seq<char>>::empty());
        }
        let mut es = kept;
        let mut i: usize = 0;
        while i < del.len()
            invariant
                i <= del.len(),
                t == self.target_dir@,
                distinct_keys(es@),
                rels == string_views(del@).map_values(|p: Seq<char>| relative_key(t, p)),
                entries_map(es@) == bump(base, rels.take(i as int)),
                forall|k: Seq<char>| #[trigger] entries_map(es@).contains_key(k) ==> entries_map(es@)[k] + (del@.len() - i) <= usize::MAX,
                forall|j: int| 0 <= j < i ==> strip_ok(t, #[trigger] string_views(del@)[j]),
            decreases del.len() - i,
        {
            let rel = self.to_relative(del[i].as_str());
            assert(string_views(del@)[i as int] == del@[i as int]@);
            assert(rel@ == rels[i as int]);
            assert(rels.take(i + 1).drop_last() =~= rels.take(i as int));
            assert(rels.take(i + 1).last() == rels[i as int]);
            let ghost m0 = entries_map(es@);
            let cur: usize = match Self::find_key(&es, rel.as_str()) {
                Some(idx) => {
                    proof {
                        lemma_entries_map_value(es@, idx as int);
                    }
                    es[idx].1
                },
                None => {
                    proof {
                        lemma_entries_map_contains(es@, rel@);
                    }
                    0
                },
            };
            assert(cur == count_of(m0, rel@));
            Self::set_count(&mut es, rel, cur + 1);
            i = i + 1;
        }
        assert(rels.take(del@.len() as int) =~= rels);
        let ghost b = entries_map(es@);
        let ghost g = self.grace_scans as nat;

        // Files that reached the grace count are deleted now.
        let mut ready: Vec<String> = Vec::new();
        let mut rest: Vec<(String, usize)> = Vec::new();
        let ghost below = |k: Seq<char>, n: nat| n < g;
        let mut i: usize = 0;
        while i < es.len()
            invariant
                i <= es.len(),
                t == self.target_dir@,
                g == self.grace_scans,
                below == (|k: Seq<char>, n: nat| n < g),
                distinct_keys(es@),
                distinct_keys(rest@),
                entries_map(rest@) == restrict(entries_map(es@.take(i as int)), below),
                forall|j: int| 0 <= j < rest@.len() ==> entries_map(es@.take(i as int)).contains_key(#[trigger] rest@[j].0@),
                forall|x: Seq<char>| string_views(ready@).contains(x) <==> exists|j: int|
                    0 <= j < i && (#[trigger] es@[j]).1 >= g && x == path_join_spec(t, es@[j].0@),
            decreases es.len() - i,
        {
            let ghost prefix = es@.take(i as int);
            assert(es@.take(i + 1).drop_last() =~= prefix);
            proof {
                lemma_key_in_prefix(es@, i as int);
                lemma_restrict_insert(entries_map(prefix), es@[i as int].0@, es@[i as int].1 as nat, below);
            }
            let ghost r0 = string_views(ready@);
            if es[i].1 >= self.grace_scans {
                let p = path_join(self.target_dir.as_str(), es[i].0.as_str());
                ready.push(p);
                assert(string_views(ready@) =~= r0.push(path_join_spec(t, es@[i as int].0@)));
                assert forall|x: Seq<char>| string_views(ready@).contains(x) <==> exists|j: int|
                    0 <= j < i + 1 && (#[trigger] es@[j]).1 >= g && x == path_join_spec(t, es@[j].0@) by {
                    if string_views(ready@).contains(x) {
                        let q = choose|q: int| 0 <= q < string_views(ready@).len() && string_views(ready@)[q] == x;
                        if q < r0.len() {
                            assert(r0.contains(x));
                        }
                    }
                    if exists|j: int| 0 <= j < i + 1 && (#[trigger] es@[j]).1 >= g && x == path_join_spec(t, es@[j].0@) {
                        let j = choose|j: int| 0 <= j < i + 1 && (#[trigger] es@[j]).1 >= g && x == path_join_spec(t, es@[j].0@);
                        if j < i {
                            assert(r0.contains(x));
                            let q = choose|q: int| 0 <= q < r0.len() && r0[q] == x;
                            assert(string_views(ready@)[q] == x);
                        } else {
                            assert(string_views(ready@)[r0.len() as int] == x);
                        }
                    }
                }
            } else {
                let key = to_string(es[i].0.as_str());
                let ghost before = rest@;
                rest.push((key, es[i].1));
                proof {
                    assert(rest@.drop_last() =~= before);
                    assert forall|a: int, c: int| 0 <= a < c < rest@.len() implies rest@[a].0@ != rest@[c].0@ by {
                        if c == rest@.len() - 1 {
                            assert(entries_map(prefix).contains_key(before[a].0@));
                        }
                    }
                }
                assert forall|x: Seq<char>| string_views(ready@).contains(x) <==> exists|j: int|
                    0 <= j < i + 1 && (#[trigger] es@[j]).1 >= g && x == path_join_spec(t, es@[j].0@) by {
                    if exists|j: int| 0 <= j < i + 1 && (#[trigger] es@[j]).1 >= g && x == path_join_spec(t, es@[j].0@) {
                        let j = choose|j: int| 0 <= j < i + 1 && (#[trigger] es@[j]).1 >= g && x == path_join_spec(t, es@[j].0@);
                        assert(j < i);
                    }
                }
            }
            i = i + 1;
            assert forall|q: int| 0 <= q < rest@.len() implies entries_map(es@.take(i as int)).contains_key(
                #[trigger] rest@[q].0@,
            ) by {
                lemma_entries_map_contains(es@.take(i as int), rest@[q].0@);
                lemma_entries_map_contains(prefix, rest@[q].0@);
                if entries_map(prefix).contains_key(rest@[q].0@) {
                    let m = choose|m: int| 0 <= m < prefix.len() && (#[trigger] prefix[m]).0@ == rest@[q].0@;
                    assert(es@.take(i as int)[m] == prefix[m]);
                } else {
                    assert(es@.take(i as int)[i - 1] == es@[i - 1]);
                }
            }
        }
        assert(es@.take(es@.len() as int) =~= es@);
        proof {
            assert forall|x: Seq<char>| string_views(ready@).contains(x) <==> exists|k: Seq<char>|
                #[trigger] is_ready(b, k, g) && x == path_join_spec(t, k) by {
                if string_views(ready@).contains(x) {
                    let j = choose|j: int| 0 <= j < es@.len() && (#[trigger] es@[j]).1 >= g && x == path_join_spec(t, es@[j].0@);
                    lemma_entries_map_value(es@, j);
                    assert(is_ready(b, es@[j].0@, g));
                }
                if exists|k: Seq<char>| #[trigger] is_ready(b, k, g) && x == path_join_spec(t, k) {
                    let k = choose|k: Seq<char>| #[trigger] is_ready(b, k, g) && x == path_join_spec(t, k);
                    lemma_entries_map_contains(es@, k);
                    let j = choose|j: int| 0 <= j < es@.len() && (#[trigger] es@[j]).0@ == k;
                    lemma_entries_map_value(es@, j);
                    assert(es@[j].1 >= g && x == path_join_spec(t, es@[j].0@));
                }
            }
        }
        assert(entries_map(rest@) =~= after_large_scan(b, g));
        assert(b == bumped(old_counts, t, present, to_del));
        assert(old_counts == old(self).counts());
        assert(b == bumped(old(self).counts(), t, present, string_views(strm_to_delete@)));
        self.protected = rest;
        assert(self.counts() == after_large_scan(b, g));
        proof {
            if batch_below(t, to_del) && batch_absent(to_del, present) {
                assert forall|j: int| 0 <= j < dedup_paths(to_del).len() implies strip_ok(
                    t,
                    #[trigger] dedup_paths(to_del)[j],
                ) by {
                    assert(string_views(del@)[j] == dedup_paths(to_del)[j]);
                }
                assert forall|x: Seq<char>| #[trigger] string_views(ready@).contains(x) implies !is_present(x, present) by {
                    let k = choose|k: Seq<char>| #[trigger] is_ready(b, k, g) && x == path_join_spec(t, k);
                    lemma_counted_not_present(old_counts, t, present, to_del, k);
                }
                assert forall|k: Seq<char>| #[trigger] self.counts().contains_key(k) implies !is_present(
                    path_join_spec(t, k),
                    present,
                ) by {
                    lemma_counted_not_present(old_counts, t, present, to_del, k);
                }
            }
            let gv = old(self).grace_view();
            if counts_below(old(self).counts(), gv) {
                lemma_counts_below_kept(old_counts, t, present, to_del, gv);
            }
            if counts_below(old(self).counts(), gv) && batch_below(t, to_del) {
                lemma_dedup_subset(to_del);
                assert forall|x: Seq<char>| #[trigger] string_views(ready@).contains(x) implies exists|q: int|
                    0 <= q < strm_to_delete@.len() && path_eq_spec(x, #[trigger] to_del[q]) by {
                    let k = choose|k: Seq<char>| #[trigger] is_ready(b, k, g) && x == path_join_spec(t, k);
                    lemma_ready_from_batch(old_counts, t, present, to_del, g, k);
                    let j = choose|j: int| 0 <= j < dedup_paths(to_del).len()
                        && relative_key(t, #[trigger] dedup_paths(to_del)[j]) == k;
                    let p = dedup_paths(to_del)[j];
                    assert(string_views(del@)[j] == p);
                    assert(strip_ok(t, p));
                    assert(to_del.contains(p));
                    let q = choose|q: int| 0 <= q < to_del.len() && to_del[q] == p;
                    assert(path_strip_prefix_spec(to_del[q], t) is Some);
                    let r = path_strip_prefix_spec(p, t)->0;
                    lemma_replace_lacks(r, '\\', seq!['/']);
                    assert(k == r);
                    assert(path_eq_spec(x, to_del[q]));
                }
            }
        }
        ready
    }

    /// The key under which the local path `path` is counted.
    pub fn to_relative(&self, path: &str) -> (res: String)
        ensures
            res@ == relative_key(self.target_dir_view(), path@),
            strip_ok(self.target_dir_view(), path@),
    {
        let r = match path_strip_prefix(path, self.target_dir.as_str()) {
            Some(x) => x,
            None => to_string(path),
        };
        let cs = chars_of(r.as_str());
        let from = vec!['\\'];
        let to = vec!['/'];
        assert(from@ =~= seq!['\\']);
        assert(to@ =~= seq!['/']);
        let out = replace_all_exec(&cs, &from, &to);
        string_of(&out)
    }

    /// Whether every count can grow by `extra` without leaving `usize`.
    pub fn counts_fit_exec(&self, extra: usize) -> (res: bool)
        ensures
            res == self.counts_fit(extra as nat),
    {
        proof {
            use_type_invariant(self);
        }
        let mut i: usize = 0;
        while i < self.protected.len()
            invariant
                i <= self.protected.len(),
                distinct_keys(self.protected@),
                forall|j: int| 0 <= j < i ==> (#[trigger] self.protected@[j]).1 + extra <= usize::MAX,
            decreases self.protected.len() - i,
        {
            if self.protected[i].1 > usize::MAX - extra {
                proof {
                    lemma_entries_map_value(self.protected@, i as int);
                    assert(self.counts().contains_key(self.protected@[i as int].0@));
                }
                return false;
            }
            i = i + 1;
        }
        proof {
            assert forall|k: Seq<char>| #[trigger] self.counts().contains_key(k) implies self.counts()[k] + extra <= usize::MAX by {
                lemma_entries_map_contains(self.protected@, k);
                let j = choose|j: int| 0 <= j < self.protected@.len() && (#[trigger] self.protected@[j]).0@ == k;
                lemma_entries_map_value(self.protected@, j);
            }
        }
        true
    }

    /// The state file path.
    pub fn state_file(&self) -> (res: String)
        ensures
            res@ == self.state_file_view(),
    {
        to_string(self.state_file.as_str())
    }

    /// The counts as (relative path, count) entries, each path once.
    pub fn protected_entries(&self) -> (res: Vec<(String, usize)>)
        ensures
            distinct_keys(res@),
            entries_map(res@) == self.counts(),
    {
        proof {
            use_type_invariant(self);
        }
        let mut out: Vec<(String, usize)> = Vec::new();
        let mut i: usize = 0;
        while i < self.protected.len()
            invariant
                i <= self.protected.len(),
                out@.len() == i,
                forall|j: int| 0 <= j < i ==> (#[trigger] out@[j]).0@ == self.protected@[j].0@ && out@[j].1 == self.protected@[j].1,
            decreases self.protected.len() - i,
        {
            out.push((to_string(self.protected[i].0.as_str()), self.protected[i].1));
            i = i + 1;
        }
        proof {
            lemma_same_entries_map(out@, self.protected@);
        }
        out
    }
}

pub proof fn lemma_same_entries_map(a: Seq<(String, usize)>, b: Seq<(String, usize)>)
    requires
        a.len() == b.len(),
        forall|j: int| 0 <= j < a.len() ==> (#[trigger] a[j]).0@ == b[j].0@ && a[j].1 == b[j].1,
    ensures
        entries_map(a) == entries_map(b),
        distinct_keys(a) == distinct_keys(b),
    decreases a.len(),
{
    if a.len() > 0 {
        assert forall|j: int| 0 <= j < a.len() - 1 implies (#[trigger] a.drop_last()[j]).0@ == b.drop_last()[j].0@
            && a.drop_last()[j].1 == b.drop_last()[j].1 by {
            assert(a.drop_last()[j] == a[j]);
            assert(b.drop_last()[j] == b[j]);
        }
        lemma_same_entries_map(a.drop_last(), b.drop_last());
        assert(a.last() == a[a.len() - 1]);
        assert(b.last() == b[b.len() - 1]);
    }
    assert(distinct_keys(a) == distinct_keys(b)) by {
        if distinct_keys(a) {
            assert forall|i: int, j: int| 0 <= i < j < b.len() implies b[i].0@ != b[j].0@ by {
                assert(a[i].0@ == b[i].0@);
                assert(a[j].0@ == b[j].0@);
            }
        }
        if distinct_keys(b) {
            assert forall|i: int, j: int| 0 <= i < j < a.len() implies a[i].0@ != a[j].0@ by {
                assert(a[i].0@ == b[i].0@);
                assert(a[j].0@ == b[j].0@);
            }
        }
    }
}

} // verus!
