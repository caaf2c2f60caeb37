//! The library-wide properties, stated over the store's spec functions and
//! proved once and for all: a fresh write is readable, an expired entry
//! vanishes on first read and stays gone, and writes to one key are visible
//! past any run of commands that do not write it.

use crate::inbound::CommandView;
use crate::server::spec_handle;
use crate::store::{
    lemma_lookup_absent, lemma_remove_absent, lemma_remove_at, lemma_set_absent,
    lemma_set_at, lookup, spec_get, spec_remove, spec_set, unique_keys, EntryView,
};
use vstd::prelude::*;

verus! {

/// Overwriting `k` stores exactly the given entry under `k`.
pub proof fn lemma_lookup_set_same(
    entries: Seq<(Seq<char>, EntryView)>,
    k: Seq<char>,
    e: EntryView,
)
    ensures
        lookup(spec_set(entries, k, e), k) == Some(e),
    decreases entries.len(),
{
    if entries.len() > 0 && entries[0].0 != k {
        lemma_lookup_set_same(entries.drop_first(), k, e);
        assert((seq![entries[0]] + spec_set(entries.drop_first(), k, e)).drop_first()
            =~= spec_set(entries.drop_first(), k, e));
    } else if entries.len() > 0 {
        assert((seq![(k, e)] + entries.drop_first())[0] == (k, e));
    }
}

/// Overwriting `k` leaves every other key's entry alone.
pub proof fn lemma_lookup_set_other(
    entries: Seq<(Seq<char>, EntryView)>,
    k: Seq<char>,
    e: EntryView,
    k2: Seq<char>,
)
    requires
        k2 != k,
    ensures
        lookup(spec_set(entries, k, e), k2) == lookup(entries, k2),
    decreases entries.len(),
{
    if entries.len() == 0 {
        assert(seq![(k, e)][0] == (k, e));
        assert(seq![(k, e)].drop_first() =~= Seq::<(Seq<char>, EntryView)>::empty());
        assert(lookup(Seq::<(Seq<char>, EntryView)>::empty(), k2) is None);
    } else if entries[0].0 == k {
        assert((seq![(k, e)] + entries.drop_first())[0] == (k, e));
        assert((seq![(k, e)] + entries.drop_first()).drop_first() =~= entries.drop_first());
    } else {
        lemma_lookup_set_other(entries.drop_first(), k, e, k2);
        assert((seq![entries[0]] + spec_set(entries.drop_first(), k, e))[0] == entries[0]);
        assert((seq![entries[0]] + spec_set(entries.drop_first(), k, e)).drop_first()
            =~= spec_set(entries.drop_first(), k, e));
    }
}

/// With unique keys, removing `k` leaves no entry under `k`.
pub proof fn lemma_lookup_remove_same(entries: Seq<(Seq<char>, EntryView)>, k: Seq<char>)
    requires
        unique_keys(entries),
    ensures
        lookup(spec_remove(entries, k), k) is None,
    decreases entries.len(),
{
    if entries.len() > 0 {
        if entries[0].0 == k {
            assert(forall|j: int|
                0 <= j < entries.drop_first().len() ==> (#[trigger] entries.drop_first()[j]).0
                    != k);
            lemma_lookup_absent(entries.drop_first(), k);
        } else {
            lemma_lookup_remove_same(entries.drop_first(), k);
            assert((seq![entries[0]] + spec_remove(entries.drop_first(), k))[0] == entries[0]);
            assert((seq![entries[0]] + spec_remove(entries.drop_first(), k)).drop_first()
                =~= spec_remove(entries.drop_first(), k));
        }
    }
}

/// Removing `k` leaves every other key's entry alone.
pub proof fn lemma_lookup_remove_other(
    entries: Seq<(Seq<char>, EntryView)>,
    k: Seq<char>,
    k2: Seq<char>,
)
    requires
        k2 != k,
    ensures
        lookup(spec_remove(entries, k), k2) == lookup(entries, k2),
    decreases entries.len(),
{
    if entries.len() > 0 {
        if entries[0].0 == k {
        } else {
            lemma_lookup_remove_other(entries.drop_first(), k, k2);
            assert((seq![entries[0]] + spec_remove(entries.drop_first(), k))[0] == entries[0]);
            assert((seq![entries[0]] + spec_remove(entries.drop_first(), k)).drop_first()
                =~= spec_remove(entries.drop_first(), k));
        }
    }
}

/// Overwriting a key keeps the keys unique.
pub proof fn lemma_set_unique(entries: Seq<(Seq<char>, EntryView)>, k: Seq<char>, e: EntryView)
    requires
        unique_keys(entries),
    ensures
        unique_keys(spec_set(entries, k, e)),
{
    if exists|j: int| 0 <= j < entries.len() && (#[trigger] entries[j]).0 == k {
        let j = choose|j: int| 0 <= j < entries.len() && (#[trigger] entries[j]).0 == k;
        assert(forall|t: int| 0 <= t < j ==> (#[trigger] entries[t]).0 != k);
        lemma_set_at(entries, k, e, j);
        let u = entries.update(j, (k, e));
        assert(forall|t: int| 0 <= t < u.len() ==> (#[trigger] u[t]).0 == entries[t].0);
    } else {
        lemma_set_absent(entries, k, e);
    }
}

/// Removing a key keeps the keys unique.
pub proof fn lemma_remove_unique(entries: Seq<(Seq<char>, EntryView)>, k: Seq<char>)
    requires
        unique_keys(entries),
    ensures
        unique_keys(spec_remove(entries, k)),
{
    if exists|j: int| 0 <= j < entries.len() && (#[trigger] entries[j]).0 == k {
        let j = choose|j: int| 0 <= j < entries.len() && (#[trigger] entries[j]).0 == k;
        assert(forall|t: int| 0 <= t < j ==> (#[trigger] entries[t]).0 != k);
        lemma_remove_at(entries, k, j);
        let u = entries.remove(j);
        assert forall|a: int, b: int| 0 <= a < b < u.len() implies (#[trigger] u[a]).0 != (
        #[trigger] u[b]).0 by {
            let a0 = if a < j {
                a
            } else {
                a + 1
            };
            let b0 = if b < j {
                b
            } else {
                b + 1
            };
            assert(entries[a0].0 != entries[b0].0);
        }
    } else {
        lemma_remove_absent(entries, k);
    }
}

/// A read keeps the keys unique, whether or not it removes an expired entry.
pub proof fn lemma_get_unique(entries: Seq<(Seq<char>, EntryView)>, k: Seq<char>, now: u128)
    requires
        unique_keys(entries),
    ensures
        unique_keys(spec_get(entries, k, now).1),
{
    lemma_remove_unique(entries, k);
}

/// Storing a value without an expiry and then reading the same key yields
/// that value, at any time and without touching the store.
pub proof fn lemma_set_then_get(
    entries: Seq<(Seq<char>, EntryView)>,
    k: Seq<char>,
    v: Seq<char>,
    now: u128,
)
    ensures
        spec_get(spec_set(entries, k, EntryView { value: v, expires_at: None }), k, now) == (
            Some(v),
            spec_set(entries, k, EntryView { value: v, expires_at: None }),
        ),
{
    lemma_lookup_set_same(entries, k, EntryView { value: v, expires_at: None });
}

/// Reading a key whose expiry has passed yields nothing and removes the
/// entry; a second read of the same key again yields nothing and no longer
/// changes the store.
pub proof fn lemma_expired_get_removes(
    entries: Seq<(Seq<char>, EntryView)>,
    k: Seq<char>,
    t: u128,
    now: u128,
)
    requires
        unique_keys(entries),
        lookup(entries, k) matches Some(e) && e.expires_at == Some(t),
        t < now,
    ensures
        spec_get(entries, k, now) == (None::<Seq<char>>, spec_remove(entries, k)),
        spec_get(spec_remove(entries, k), k, now) == (
            None::<Seq<char>>,
            spec_remove(entries, k),
        ),
{
    lemma_lookup_remove_same(entries, k);
}

/// A command that writes `k`: only a store of a value under that key.
pub open spec fn writes_key(cmd: CommandView, k: Seq<char>) -> bool {
    cmd matches CommandView::SetValue { key, .. } && key == k
}

/// The entry map after a run of commands, each paired with the clock reading
/// it was handled at, against one settings map.
pub open spec fn spec_run(
    entries: Seq<(Seq<char>, EntryView)>,
    config: Map<Seq<char>, Seq<char>>,
    cmds: Seq<(CommandView, u128)>,
) -> Seq<(Seq<char>, EntryView)>
    decreases cmds.len(),
{
    if cmds.len() == 0 {
        entries
    } else {
        spec_handle(
            spec_run(entries, config, cmds.drop_last()),
            config,
            cmds.last().0,
            cmds.last().1,
        ).1
    }
}

/// One command that does not write `k` leaves an unexpiring entry under `k`
/// exactly as it was, and keeps the keys unique.
pub proof fn lemma_handle_preserves_unexpiring_key(
    entries: Seq<(Seq<char>, EntryView)>,
    config: Map<Seq<char>, Seq<char>>,
    cmd: CommandView,
    now: u128,
    k: Seq<char>,
    v: Seq<char>,
)
    requires
        unique_keys(entries),
        lookup(entries, k) == Some(EntryView { value: v, expires_at: None }),
        !writes_key(cmd, k),
    ensures
        unique_keys(spec_handle(entries, config, cmd, now).1),
        lookup(spec_handle(entries, config, cmd, now).1, k) == Some(
            EntryView { value: v, expires_at: None },
        ),
{
    match cmd {
        CommandView::SetValue { key, value, expires_at } => {
            lemma_set_unique(entries, key, EntryView { value, expires_at });
            lemma_lookup_set_other(entries, key, EntryView { value, expires_at }, k);
        },
        CommandView::Get { key } => {
            lemma_get_unique(entries, key, now);
            if key == k {
            } else {
                lemma_lookup_remove_other(entries, key, k);
            }
        },
        _ => {},
    }
}

/// Once a store of `v` under `k` with no expiry is acknowledged, a read of
/// `k` returns `v` after any run of commands that do not write `k`, whenever
/// each of them ran: per-key visibility under the store's mutual exclusion.
pub proof fn lemma_set_visible_after_run(
    entries: Seq<(Seq<char>, EntryView)>,
    config: Map<Seq<char>, Seq<char>>,
    k: Seq<char>,
    v: Seq<char>,
    now0: u128,
    cmds: Seq<(CommandView, u128)>,
    now1: u128,
)
    requires
        unique_keys(entries),
        forall|i: int| 0 <= i < cmds.len() ==> !writes_key((#[trigger] cmds[i]).0, k),
    ensures
        ({
            let acknowledged = spec_handle(
                entries,
                config,
                CommandView::SetValue { key: k, value: v, expires_at: None },
                now0,
            );
            let settled = spec_run(acknowledged.1, config, cmds);
            acknowledged.0 == crate::outbound::OutboundMessageView::Okay && unique_keys(settled)
                && spec_handle(settled, config, CommandView::Get { key: k }, now1).0
                == crate::outbound::OutboundMessageView::Get(Some(v))
        }),
{
    let e = EntryView { value: v, expires_at: None };
    let after_set = spec_set(entries, k, e);
    lemma_set_unique(entries, k, e);
    lemma_lookup_set_same(entries, k, e);
    lemma_run_preserves_unexpiring_key(after_set, config, cmds, k, v);
}

/// A run of commands that do not write `k` leaves an unexpiring entry under
/// `k` exactly as it was, and keeps the keys unique.
pub proof fn lemma_run_preserves_unexpiring_key(
    entries: Seq<(Seq<char>, EntryView)>,
    config: Map<Seq<char>, Seq<char>>,
    cmds: Seq<(CommandView, u128)>,
    k: Seq<char>,
    v: Seq<char>,
)
    requires
        unique_keys(entries),
        lookup(entries, k) == Some(EntryView { value: v, expires_at: None }),
        forall|i: int| 0 <= i < cmds.len() ==> !writes_key((#[trigger] cmds[i]).0, k),
    ensures
        unique_keys(spec_run(entries, config, cmds)),
        lookup(spec_run(entries, config, cmds), k) == Some(
            EntryView { value: v, expires_at: None },
        ),
    decreases cmds.len(),
{
    if cmds.len() > 0 {
        lemma_run_preserves_unexpiring_key(entries, config, cmds.drop_last(), k, v);
        lemma_handle_preserves_unexpiring_key(
            spec_run(entries, config, cmds.drop_last()),
            config,
            cmds.last().0,
            cmds.last().1,
            k,
            v,
        );
    }
}

} // verus!
