//! One deletion pass over a snapshot of a directory's immediate entries.
//!
//! The caller lists the directory and reads each entry's creation time,
//! hands the snapshot to [`run`], and receives a plan: the positions of
//! the entries to delete, in order, and whether the pass stops early
//! because some entry's metadata could not be read.  The caller performs
//! the removals in the plan's order and stops at the first that fails.

use vstd::prelude::*;

use crate::config::DeleteConfig;
use crate::time::Timestamp;

verus! {

/// Why a cleanup run failed.
#[derive(Clone, Copy, Debug, PartialEq, Eq, Structural)]
pub enum RunError {
    /// The target directory does not exist.
    DirectoryNotFound,
    /// An entry's metadata or creation time could not be read; the pass
    /// stops there, keeping the deletions made before it.
    MetadataUnavailable,
    /// The filesystem rejected a removal; the pass stops there.
    DeletionFailed,
}

impl RunError {
    /// A human-readable account of the failure.
    pub fn message(&self) -> (r: &'static str)
        ensures
            *self is DirectoryNotFound ==> r@ == "the directory does not exist"@,
            *self is MetadataUnavailable ==> r@ == "could not read the creation time of an entry"@,
            *self is DeletionFailed ==> r@ == "could not delete a file"@,
    {
        match self {
            RunError::DirectoryNotFound => "the directory does not exist",
            RunError::MetadataUnavailable => "could not read the creation time of an entry",
            RunError::DeletionFailed => "could not delete a file",
        }
    }
}

/// One immediate entry of the target directory, as the caller observed
/// it: its file name, and its creation time where metadata could be read.
#[derive(Clone, Debug)]
pub struct Entry {
    /// The entry's file name.
    pub name: String,
    /// The entry's creation time; `None` when the filesystem could not
    /// report it.
    pub created: Option<Timestamp>,
}

/// The mathematical image of an [`Entry`]: the name's characters and the
/// creation time in nanoseconds after the epoch.
pub ghost struct EntryV {
    pub name: Seq<char>,
    pub created: Option<int>,
}

impl View for Entry {
    type V = EntryV;

    open spec fn view(&self) -> EntryV {
        EntryV {
            name: self.name@,
            created: match self.created {
                Some(t) => Some(t@),
                None => None,
            },
        }
    }
}

/// An entry's creation time, if read, is well formed.
pub open spec fn entry_wf(e: Entry) -> bool {
    e.created matches Some(t) ==> t.wf()
}

/// The images of a snapshot's entries, in order.
pub open spec fn views_of(es: Seq<Entry>) -> Seq<EntryV> {
    es.map_values(|e: Entry| e@)
}

/// An entry the pass deletes: its creation time was read and lies
/// strictly before the cutoff.
pub open spec fn doomed(e: EntryV, cutoff: int) -> bool {
    e.created matches Some(c) && c < cutoff
}

/// How many entries the pass examines: all of them, or those up to the
/// first whose metadata could not be read.
pub open spec fn examined(es: Seq<EntryV>) -> int
    decreases es.len(),
{
    if es.len() == 0 {
        0
    } else if es[0].created is None {
        0
    } else {
        1 + examined(es.drop_first())
    }
}

/// The positions of the entries a pass over `es` deletes, in increasing
/// order.
pub open spec fn doomed_indices(es: Seq<EntryV>, cutoff: int) -> Seq<int>
    decreases es.len(),
{
    if es.len() == 0 {
        Seq::empty()
    } else {
        let prefix = doomed_indices(es.drop_last(), cutoff);
        if doomed(es.last(), cutoff) {
            prefix.push(es.len() - 1)
        } else {
            prefix
        }
    }
}

/// The entries of `es` that a pass leaves in place, in order.
pub open spec fn kept(es: Seq<EntryV>, cutoff: int) -> Seq<EntryV>
    decreases es.len(),
{
    if es.len() == 0 {
        es
    } else {
        let prefix = kept(es.drop_last(), cutoff);
        if doomed(es.last(), cutoff) {
            prefix
        } else {
            prefix.push(es.last())
        }
    }
}

/// The directory after one pass: of the examined prefix the entries not
/// deleted, and from the first unreadable entry on everything untouched.
pub open spec fn survivors(es: Seq<EntryV>, cutoff: int) -> Seq<EntryV> {
    kept(es.take(examined(es)), cutoff) + es.skip(examined(es))
}

/// What one pass decides: the positions of the entries to delete, in
/// increasing order, and the error the pass ends in, if any.  The
/// deletions come first either way: when an entry's metadata could not
/// be read, the entries deleted before it stay deleted.
pub struct PassPlan {
    /// Positions into the snapshot, in increasing order.
    pub to_delete: Vec<usize>,
    /// `None` for a complete pass; the error it stops with otherwise.
    pub error: Option<RunError>,
}

/// A plan's deletion positions, as mathematical integers.
pub open spec fn plan_indices(plan: PassPlan) -> Seq<int> {
    plan.to_delete@.map_values(|u: usize| u as int)
}

/// How a plan must relate to the snapshot it was made from.
pub open spec fn plan_matches(es: Seq<EntryV>, cutoff: int, plan: PassPlan) -> bool {
    &&& plan_indices(plan) == doomed_indices(es.take(examined(es)), cutoff)
    &&& plan.error == (if examined(es) < es.len() {
        Some(RunError::MetadataUnavailable)
    } else {
        None::<RunError>
    })
}

/// `examined` counts exactly the entries before the first one whose
/// metadata could not be read.
proof fn lemma_examined_at(es: Seq<EntryV>, i: int)
    requires
        0 <= i <= es.len(),
        forall|j: int| 0 <= j < i ==> (#[trigger] es[j]).created is Some,
        i < es.len() ==> es[i].created is None,
    ensures
        examined(es) == i,
    decreases i,
{
    if i == 0 {
    } else {
        assert(es[0].created is Some);
        lemma_examined_at(es.drop_first(), i - 1);
    }
}

/// The examined prefix consists of entries whose metadata was read, and
/// the pass stops at an unreadable entry if one exists.
proof fn lemma_examined_bounds(es: Seq<EntryV>)
    ensures
        0 <= examined(es) <= es.len(),
        forall|j: int| 0 <= j < examined(es) ==> (#[trigger] es[j]).created is Some,
        examined(es) < es.len() ==> es[examined(es)].created is None,
    decreases es.len(),
{
    if es.len() > 0 && es[0].created is Some {
        lemma_examined_bounds(es.drop_first());
        assert forall|j: int| 0 <= j < examined(es) implies (#[trigger] es[j]).created
            is Some by {
            if j > 0 {
                assert(es[j] == es.drop_first()[j - 1]);
            }
        }
    }
}

/// A pass deletes at exactly the positions of the entries created before
/// the cutoff: every planned position holds such an entry, every such
/// entry's position is planned, and the positions increase strictly.
pub proof fn lemma_plan_positions(es: Seq<EntryV>, cutoff: int)
    ensures
        forall|j: int|
            0 <= j < doomed_indices(es, cutoff).len() ==> 0 <= #[trigger] doomed_indices(
                es,
                cutoff,
            )[j] < es.len() && doomed(es[doomed_indices(es, cutoff)[j]], cutoff),
        forall|i: int|
            0 <= i < es.len() && doomed(#[trigger] es[i], cutoff) ==> doomed_indices(
                es,
                cutoff,
            ).contains(i),
        forall|j: int|
            0 <= j && j + 1 < doomed_indices(es, cutoff).len() ==> #[trigger] doomed_indices(
                es,
                cutoff,
            )[j] < doomed_indices(es, cutoff)[j + 1],
    decreases es.len(),
{
    if es.len() > 0 {
        lemma_plan_positions(es.drop_last(), cutoff);
        let previous = doomed_indices(es.drop_last(), cutoff);
        let current = doomed_indices(es, cutoff);
        assert forall|i: int|
            0 <= i < es.len() && doomed(#[trigger] es[i], cutoff) implies current.contains(i) by {
            if i < es.len() - 1 {
                assert(es.drop_last()[i] == es[i]);
                assert(previous.contains(i));
                let j = choose|j: int| 0 <= j < previous.len() && previous[j] == i;
                assert(current[j] == i);
            } else {
                assert(current.last() == i);
            }
        }
        assert forall|j: int| 0 <= j && j + 1 < current.len() implies #[trigger] current[j]
            < current[j + 1] by {
            if doomed(es.last(), cutoff) {
                let pushed = previous.push(es.len() - 1);
                assert(current == pushed);
                assert(pushed[j] == previous[j]);
                if j + 1 == current.len() - 1 {
                    assert(pushed[j + 1] == es.len() - 1);
                } else {
                    assert(pushed[j + 1] == previous[j + 1]);
                }
            } else {
                assert(current[j] == previous[j] && current[j + 1] == previous[j + 1]);
            }
        }
    }
}

/// A sequence of entries without those at the given positions, in order:
/// what remains when a caller performs a plan's deletions.
pub open spec fn without_positions(es: Seq<EntryV>, ps: Seq<int>) -> Seq<EntryV>
    decreases es.len(),
{
    if es.len() == 0 {
        es
    } else {
        let prefix = without_positions(es.drop_last(), ps);
        if ps.contains(es.len() - 1) {
            prefix
        } else {
            prefix.push(es.last())
        }
    }
}

/// A position beyond the sequence removes nothing from it.
proof fn lemma_without_positions_ignores_high(es: Seq<EntryV>, ps: Seq<int>, x: int)
    requires
        x >= es.len(),
    ensures
        without_positions(es, ps.push(x)) == without_positions(es, ps),
    decreases es.len(),
{
    if es.len() > 0 {
        lemma_without_positions_ignores_high(es.drop_last(), ps, x);
        let pushed = ps.push(x);
        assert(pushed.contains(es.len() - 1) == ps.contains(es.len() - 1)) by {
            if pushed.contains(es.len() - 1) {
                let k = choose|k: int| 0 <= k < pushed.len() && pushed[k] == es.len() - 1;
                assert(k < ps.len());
                assert(ps[k] == es.len() - 1);
            }
            if ps.contains(es.len() - 1) {
                let k = choose|k: int| 0 <= k < ps.len() && ps[k] == es.len() - 1;
                assert(pushed[k] == es.len() - 1);
            }
        }
    }
}

/// Performing a plan's deletions — removing exactly the entries at the
/// planned positions — leaves exactly the kept entries.
pub proof fn lemma_plan_execution(es: Seq<EntryV>, cutoff: int)
    ensures
        without_positions(es, doomed_indices(es, cutoff)) == kept(es, cutoff),
    decreases es.len(),
{
    if es.len() > 0 {
        lemma_plan_execution(es.drop_last(), cutoff);
        lemma_plan_positions(es.drop_last(), cutoff);
        let previous = doomed_indices(es.drop_last(), cutoff);
        let current = doomed_indices(es, cutoff);
        if doomed(es.last(), cutoff) {
            lemma_without_positions_ignores_high(es.drop_last(), previous, es.len() - 1);
            assert(current == previous.push(es.len() - 1));
            assert(current.last() == es.len() - 1);
            assert(current.contains(es.len() - 1));
        } else {
            assert(!current.contains(es.len() - 1)) by {
                if current.contains(es.len() - 1) {
                    let k = choose|k: int|
                        0 <= k < current.len() && current[k] == es.len() - 1;
                    assert(current[k] < es.drop_last().len());
                }
            }
        }
    }
}

/// Every entry is either kept or planned for deletion: the two together
/// account for the whole sequence.
pub proof fn lemma_kept_and_doomed_partition(es: Seq<EntryV>, cutoff: int)
    ensures
        kept(es, cutoff).len() + doomed_indices(es, cutoff).len() == es.len(),
    decreases es.len(),
{
    if es.len() > 0 {
        lemma_kept_and_doomed_partition(es.drop_last(), cutoff);
    }
}

/// What a pass keeps of a sequence of entries: exactly the members that
/// were not created before the cutoff, in unchanged order.
proof fn lemma_kept_members(es: Seq<EntryV>, cutoff: int)
    ensures
        forall|e: EntryV|
            #[trigger] kept(es, cutoff).contains(e) ==> es.contains(e) && !doomed(e, cutoff),
        forall|i: int|
            0 <= i < es.len() && !doomed(#[trigger] es[i], cutoff) ==> kept(es, cutoff).contains(
                es[i],
            ),
    decreases es.len(),
{
    if es.len() > 0 {
        lemma_kept_members(es.drop_last(), cutoff);
        let previous = kept(es.drop_last(), cutoff);
        let current = kept(es, cutoff);
        assert forall|e: EntryV| #[trigger] current.contains(e) implies es.contains(e) && !doomed(
            e,
            cutoff,
        ) by {
            let k = choose|k: int| 0 <= k < current.len() && current[k] == e;
            if !doomed(es.last(), cutoff) && k == current.len() - 1 {
                assert(es[es.len() - 1] == e);
            } else {
                assert(current[k] == previous[k]);
                assert(previous.contains(e));
                let j = choose|j: int|
                    0 <= j < es.drop_last().len() && es.drop_last()[j] == e;
                assert(es[j] == e);
            }
        }
        assert forall|i: int|
            0 <= i < es.len() && !doomed(#[trigger] es[i], cutoff) implies current.contains(
            es[i],
        ) by {
            if i < es.len() - 1 {
                assert(es.drop_last()[i] == es[i]);
                assert(previous.contains(es[i]));
                let k = choose|k: int| 0 <= k < previous.len() && previous[k] == es[i];
                assert(current[k] == es[i]);
            } else {
                assert(current.last() == es[i]);
            }
        }
    }
}

/// A pass keeps a sequence with nothing to delete exactly as it is.
proof fn lemma_kept_all(es: Seq<EntryV>, cutoff: int)
    requires
        forall|i: int| 0 <= i < es.len() ==> !doomed(#[trigger] es[i], cutoff),
    ensures
        kept(es, cutoff) == es,
    decreases es.len(),
{
    if es.len() > 0 {
        assert forall|i: int|
            0 <= i < es.drop_last().len() implies !doomed(#[trigger] es.drop_last()[i], cutoff) by {
            assert(es.drop_last()[i] == es[i]);
        }
        lemma_kept_all(es.drop_last(), cutoff);
        assert(kept(es, cutoff) =~= es);
    }
}

/// After a complete pass — one that read every entry's creation time —
/// every entry that remains was created at or after the cutoff, every
/// entry created before the cutoff is gone, and every other entry
/// remains.
pub proof fn lemma_pass_final_state(es: Seq<EntryV>, cutoff: int)
    requires
        forall|i: int| 0 <= i < es.len() ==> (#[trigger] es[i]).created is Some,
    ensures
        forall|e: EntryV|
            #[trigger] survivors(es, cutoff).contains(e) ==> (e.created matches Some(c) && c
                >= cutoff),
        forall|i: int|
            0 <= i < es.len() && doomed(#[trigger] es[i], cutoff) ==> !survivors(
                es,
                cutoff,
            ).contains(es[i]),
        forall|i: int|
            0 <= i < es.len() && !doomed(#[trigger] es[i], cutoff) ==> survivors(
                es,
                cutoff,
            ).contains(es[i]),
{
    lemma_examined_at(es, es.len() as int);
    assert(es.take(es.len() as int) =~= es);
    assert(survivors(es, cutoff) =~= kept(es, cutoff));
    lemma_kept_members(es, cutoff);
    assert forall|e: EntryV| #[trigger] survivors(es, cutoff).contains(e) implies (e.created
        matches Some(c) && c >= cutoff) by {
        assert(es.contains(e) && !doomed(e, cutoff));
        let i = choose|i: int| 0 <= i < es.len() && es[i] == e;
        assert(e.created is Some);
    }
}

/// Running the pass a second time on the directory a pass left behind
/// changes nothing: the survivors of the survivors are the survivors.
/// This holds also of a pass that stopped at an unreadable entry, since
/// the second pass stops at that same entry.
pub proof fn lemma_pass_idempotent(es: Seq<EntryV>, cutoff: int)
    ensures
        survivors(survivors(es, cutoff), cutoff) == survivors(es, cutoff),
{
    let k = examined(es);
    lemma_examined_bounds(es);
    let examined_part = es.take(k);
    let a = kept(examined_part, cutoff);
    let b = es.skip(k);
    let s1 = survivors(es, cutoff);
    lemma_kept_members(examined_part, cutoff);
    assert forall|j: int|
        0 <= j < a.len() implies (#[trigger] a[j]).created is Some && !doomed(a[j], cutoff) by {
        assert(a.contains(a[j]));
        let i = choose|i: int| 0 <= i < examined_part.len() && examined_part[i] == a[j];
        assert(examined_part[i] == es[i]);
    }
    assert forall|j: int| 0 <= j < a.len() implies (#[trigger] s1[j]).created is Some by {
        assert(s1[j] == a[j]);
    }
    if a.len() < s1.len() {
        assert(s1[a.len() as int] == b[0]);
        assert(b[0] == es[k]);
    }
    lemma_examined_at(s1, a.len() as int);
    assert(s1.take(a.len() as int) =~= a);
    assert(s1.skip(a.len() as int) =~= b);
    lemma_kept_all(a, cutoff);
    assert(survivors(s1, cutoff) == kept(a, cutoff) + b);
    assert(survivors(s1, cutoff) == s1);
}

/// One pass over a snapshot whose creation times were all read: decide,
/// for each entry, whether it goes.
fn plan_deletions(entries: &Vec<Entry>, cutoff: &Timestamp) -> (plan: PassPlan)
    requires
        cutoff.wf(),
        forall|i: int| 0 <= i < entries@.len() ==> entry_wf(#[trigger] entries@[i]),
    ensures
        plan_matches(views_of(entries@), cutoff@, plan),
{
    let ghost evs = views_of(entries@);
    let mut to_delete: Vec<usize> = Vec::new();
    let mut i: usize = 0;
    let n = entries.len();
    while i < n
        invariant
            i <= n,
            n == entries@.len(),
            cutoff.wf(),
            forall|j: int| 0 <= j < entries@.len() ==> entry_wf(#[trigger] entries@[j]),
            evs == views_of(entries@),
            forall|j: int| 0 <= j < i ==> (#[trigger] evs[j]).created is Some,
            to_delete@.map_values(|u: usize| u as int) == doomed_indices(
                evs.take(i as int),
                cutoff@,
            ),
        decreases n - i,
    {
        assert(evs[i as int] == entries@[i as int]@);
        match &entries[i].created {
            Option::None => {
                proof {
                    lemma_examined_at(evs, i as int);
                }
                return PassPlan { to_delete, error: Some(RunError::MetadataUnavailable) };
            },
            Option::Some(t) => {
                proof {
                    assert(evs.take(i + 1).drop_last() =~= evs.take(i as int));
                    assert(evs.take(i + 1).last() == evs[i as int]);
                }
                let ghost previous = to_delete@;
                if t.is_before(cutoff) {
                    assert(doomed(evs[i as int], cutoff@));
                    to_delete.push(i);
                    proof {
                        assert(to_delete@.map_values(|u: usize| u as int) =~= previous.map_values(
                            |u: usize| u as int,
                        ).push(i as int));
                    }
                } else {
                    assert(!doomed(evs[i as int], cutoff@));
                }
            },
        }
        i += 1;
    }
    proof {
        lemma_examined_at(evs, n as int);
        assert(evs.take(n as int) =~= evs);
    }
    PassPlan { to_delete, error: None }
}

/// One cleanup run on a snapshot of the target directory, taken by the
/// caller: `None` when the directory does not exist, otherwise its
/// entries in the order the filesystem listed them.  Returns the plan of
/// the pass, or the error the run fails with before any pass is made.
pub fn run(config: DeleteConfig, listing: Option<Vec<Entry>>) -> (r: Result<PassPlan, RunError>)
    requires
        config.wf(),
        listing matches Some(es) ==> forall|i: int|
            0 <= i < es@.len() ==> entry_wf(#[trigger] es@[i]),
    ensures
        match listing {
            None => r == Err::<PassPlan, RunError>(RunError::DirectoryNotFound),
            Some(es) => r matches Ok(plan) && plan_matches(
                views_of(es@),
                config.cutoff_time@,
                plan,
            ),
        },
{
    match listing {
        None => Err(RunError::DirectoryNotFound),
        Some(es) => Ok(plan_deletions(&es, &config.cutoff_time)),
    }
}

} // verus!
