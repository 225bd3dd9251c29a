//! The two operations of the tool: take the initial snapshot, and record a
//! commit against the baseline that the log rebuilds.

use vstd::prelude::*;
use crate::commit::Commit;
use crate::ignore::{IgnoreSet, visible};
use crate::log::Entry;
use crate::replay::{LogEntry, ReplayError, State, error_of, reconstruct, reconstruct_spec, state_of};
use crate::tree::Tree;
use crate::laws::{lemma_ignore_honored, record_visible};

verus! {

/// The part of a state that the ignore set leaves visible.
pub open spec fn visible_state(st: State, ign: Set<Seq<u8>>) -> State {
    (
        st.0.filter(|p: Seq<u8>| visible(p, ign)),
        st.1.restrict(st.1.dom().filter(|p: Seq<u8>| visible(p, ign))),
    )
}

/// The initial snapshot: the working tree without its ignored paths.
pub fn create_pod(working: &Tree, ignore: &IgnoreSet) -> (r: Tree)
    ensures
        state_of(r) == visible_state(state_of(*working), ignore.name_set()),
{
    working.visible_part(ignore)
}

/// Rebuilds the baseline from the snapshot and the log, and compares the
/// visible part of the working tree with the visible part of the baseline.
/// Returns the commit record and the payloads of the new log entry; no path
/// in the record has an ignored component.
pub fn prepare_commit(
    working: &Tree,
    snapshot: Tree,
    log: &Vec<LogEntry>,
    ignore: &IgnoreSet,
) -> (r: Result<(Commit, Entry), ReplayError>)
    ensures
        error_of(r) == error_of(reconstruct_spec(state_of(snapshot), log@)),
        r.is_ok() ==> exists|cur: Tree, base: Tree|
            state_of(cur) == visible_state(state_of(*working), ignore.name_set())
            && state_of(base) == visible_state(
                reconstruct_spec(state_of(snapshot), log@).unwrap(),
                ignore.name_set(),
            ) && (#[trigger] Commit::new_spec(cur, base, r.unwrap().0)) && r.unwrap().0.entry_spec(r.unwrap().1),
        r.is_ok() ==> record_visible(r.unwrap().0, ignore.name_set()),
{
    let rebuilt = match reconstruct(snapshot, log) {
        Ok(t) => t,
        Err(e) => {
            return Err(e);
        },
    };
    let base = rebuilt.visible_part(ignore);
    let cur = working.visible_part(ignore);
    let c = Commit::new(&cur, &base);
    let e = c.to_entry();
    proof {
        lemma_ignore_honored(cur, base, c, ignore.name_set());
    }
    assert(state_of(base) =~= visible_state(state_of(rebuilt), ignore.name_set()));
    assert(state_of(cur) =~= visible_state(state_of(*working), ignore.name_set()));
    let r: Result<(Commit, Entry), ReplayError> = Ok((c, e));
    assert(state_of(cur) == visible_state(state_of(*working), ignore.name_set())
        && state_of(base) == visible_state(
        reconstruct_spec(state_of(snapshot), log@).unwrap(),
        ignore.name_set(),
    ) && Commit::new_spec(cur, base, r.unwrap().0) && r.unwrap().0.entry_spec(r.unwrap().1));
    r
}

} // verus!
