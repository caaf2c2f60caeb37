//! Dispatch: one decoded command, applied to the store under the caller's
//! mutual exclusion, yields one reply. The caller supplies the clock reading
//! `now_ms` that expiry checks use.

use crate::inbound::{CommandView, ConfigMessage, ConfigView, InboundMessage};
use crate::outbound::{OutboundMessage, OutboundMessageView};
use crate::store::{spec_get, spec_keys, spec_set, Database, EntryView};
use vstd::prelude::*;

verus! {

/// The reply to one command and the entry map it leaves behind. Only a store
/// read or write touches the entries; the settings map is read by `CONFIG
/// GET` and written by nothing here.
pub open spec fn spec_handle(
    entries: Seq<(Seq<char>, EntryView)>,
    config: Map<Seq<char>, Seq<char>>,
    cmd: CommandView,
    now: u128,
) -> (OutboundMessageView, Seq<(Seq<char>, EntryView)>) {
    match cmd {
        CommandView::Config(ConfigView::Get { key }) => (
            OutboundMessageView::ConfigGet {
                key: key,
                value: if config.contains_key(key) {
                    Some(config[key])
                } else {
                    None
                },
            },
            entries,
        ),
        CommandView::Ping => (OutboundMessageView::Pong, entries),
        CommandView::Echo(s) => (OutboundMessageView::Echo(s), entries),
        CommandView::SetValue { key, value, expires_at } => (
            OutboundMessageView::Okay,
            spec_set(entries, key, EntryView { value, expires_at }),
        ),
        CommandView::Get { key } => (
            OutboundMessageView::Get(spec_get(entries, key, now).0),
            spec_get(entries, key, now).1,
        ),
        CommandView::Keys { pattern } => (
            OutboundMessageView::Keys(spec_keys(entries, pattern)),
            entries,
        ),
    }
}

/// Applies one command to the store at time `now_ms` and builds the reply.
pub fn handle_message(database: &mut Database, message: &InboundMessage, now_ms: u128) -> (r:
    OutboundMessage)
    requires
        old(database).wf(),
    ensures
        final(database).wf(),
        r@ == spec_handle(
            old(database).entries(),
            old(database).config_map(),
            message@,
            now_ms,
        ).0,
        final(database).entries() == spec_handle(
            old(database).entries(),
            old(database).config_map(),
            message@,
            now_ms,
        ).1,
        final(database).config_map() == old(database).config_map(),
        final(database).metadata_map() == old(database).metadata_map(),
{
    match message {
        InboundMessage::Config(ConfigMessage::Get { key }) => {
            let value = database.config_get(key.as_str());
            OutboundMessage::ConfigGet { key: key.clone(), value }
        },
        InboundMessage::Ping => OutboundMessage::Pong,
        InboundMessage::Echo(string) => OutboundMessage::Echo(string.clone()),
        InboundMessage::SetValue { key, value, expires_at } => {
            database.set(key.clone(), value.clone(), *expires_at);
            OutboundMessage::Okay
        },
        InboundMessage::Get { key } => {
            let value = database.get(key.clone(), now_ms);
            OutboundMessage::Get(value)
        },
        InboundMessage::Keys { pattern } => {
            let value = database.keys(pattern.clone());
            OutboundMessage::Keys(value)
        },
    }
}

} // verus!
