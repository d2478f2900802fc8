//! Per-group playback state coordination.
//!
//! Each group (one chat/voice context) has a record holding its persisted
//! loop preference and the handle of whatever is currently playing. Handles
//! are opaque tokens owned by the external voice session; the coordinator
//! only decides which handle to stop, which to store, and which loop or
//! gain command to apply. The caller performs those external calls and
//! hands the results back.
//!
//! The whole stop-old/publish-new transition for one group is a single
//! `&mut` step (`begin_playback`), so two commands for the same group can
//! never interleave half-way and orphan a playing track. A group's record
//! is created lazily and never removed — tearing down a voice session
//! leaves the loop flag (and a stale handle, until the next playback)
//! in place.

use vstd::prelude::*;
use std::collections::HashMap;

verus! {

broadcast use vstd::std_specs::hash::group_hash_axioms;

/// Per-group playback state: the persisted loop flag and the currently
/// playing track's handle, if any. The flag survives track changes and
/// stops; the handle is replaced wholesale on every new playback.
#[derive(Clone, Copy, Debug)]
pub struct GroupState {
    pub loop_enabled: bool,
    pub current: Option<u64>,
}

/// The state of a group that was never touched: loop off, nothing playing.
pub open spec fn default_state() -> GroupState {
    GroupState { loop_enabled: false, current: None }
}

/// A loop command to issue on a track handle.
#[derive(Clone, Copy, Debug, PartialEq, Eq)]
pub enum LoopCommand {
    Enable(u64),
    Disable(u64),
}

/// What the caller must apply to a freshly started track: set the default
/// output gain on it, and bring its looping in line with the group's flag.
#[derive(Clone, Copy, Debug, PartialEq, Eq)]
pub struct StartDirectives {
    pub gain_on: u64,
    pub loop_command: LoopCommand,
}

/// The registry of every group's playback state, keyed by group identity.
/// Records are created lazily on first use and retained forever.
pub struct PlaybackRegistry {
    groups: HashMap<u64, GroupState>,
}

impl PlaybackRegistry {
    /// The state recorded for group `g`: the stored record, or the default
    /// for a group never touched.
    pub closed spec fn state_of(self, g: u64) -> GroupState {
        if self.groups@.contains_key(g) {
            self.groups@[g]
        } else {
            default_state()
        }
    }

    /// An empty registry: every group is in its default state.
    pub fn new() -> (r: PlaybackRegistry)
        ensures
            forall|g: u64| r.state_of(g) == default_state(),
    {
        PlaybackRegistry { groups: HashMap::new() }
    }

    fn get_state(&self, g: u64) -> (r: GroupState)
        ensures
            r == self.state_of(g),
    {
        match self.groups.get(&g) {
            Some(s) => *s,
            None => GroupState { loop_enabled: false, current: None },
        }
    }

    /// The group's persisted loop preference.
    pub fn loop_enabled(&self, g: u64) -> (r: bool)
        ensures
            r == self.state_of(g).loop_enabled,
    {
        self.get_state(g).loop_enabled
    }

    /// The handle currently playing for the group, if any.
    pub fn current_handle(&self, g: u64) -> (r: Option<u64>)
        ensures
            r == self.state_of(g).current,
    {
        self.get_state(g).current
    }

    /// Flips the group's loop flag and returns the new value. When a track
    /// is currently playing, also returns the loop command to issue on it
    /// so it matches the new flag; when nothing is playing, no external
    /// call is owed at all.
    pub fn toggle_loop(&mut self, g: u64) -> (r: (bool, Option<LoopCommand>))
        ensures
            final(self).state_of(g).loop_enabled == !old(self).state_of(g).loop_enabled,
            final(self).state_of(g).current == old(self).state_of(g).current,
            forall|g2: u64| g2 != g ==> final(self).state_of(g2) == old(self).state_of(g2),
            r.0 == final(self).state_of(g).loop_enabled,
            match old(self).state_of(g).current {
                None => r.1 is None,
                Some(h) => r.1 == Some(
                    if old(self).state_of(g).loop_enabled {
                        LoopCommand::Disable(h)
                    } else {
                        LoopCommand::Enable(h)
                    },
                ),
            },
    {
        let mut st = self.get_state(g);
        st.loop_enabled = !st.loop_enabled;
        self.groups.insert(g, st);
        let cmd = match st.current {
            None => None,
            Some(h) => Some(
                if st.loop_enabled {
                    LoopCommand::Enable(h)
                } else {
                    LoopCommand::Disable(h)
                },
            ),
        };
        (st.loop_enabled, cmd)
    }

    /// Takes the currently playing handle out of the record, for the caller
    /// to stop. The loop flag is deliberately not reset: it is a persistent
    /// preference, not a property of one track.
    pub fn take_current(&mut self, g: u64) -> (r: Option<u64>)
        ensures
            r == old(self).state_of(g).current,
            final(self).state_of(g).current is None,
            final(self).state_of(g).loop_enabled == old(self).state_of(g).loop_enabled,
            forall|g2: u64| g2 != g ==> final(self).state_of(g2) == old(self).state_of(g2),
    {
        let mut st = self.get_state(g);
        let r = st.current;
        st.current = None;
        self.groups.insert(g, st);
        r
    }

    /// Records a freshly started track as the group's current one and says
    /// what to apply to it: the default gain, and looping per the group's
    /// persisted flag — so a flag toggled while nothing played takes effect
    /// on the next playback.
    pub fn commit_playback(&mut self, g: u64, h: u64) -> (r: StartDirectives)
        ensures
            final(self).state_of(g).current == Some(h),
            final(self).state_of(g).loop_enabled == old(self).state_of(g).loop_enabled,
            forall|g2: u64| g2 != g ==> final(self).state_of(g2) == old(self).state_of(g2),
            r.gain_on == h,
            r.loop_command == if old(self).state_of(g).loop_enabled {
                LoopCommand::Enable(h)
            } else {
                LoopCommand::Disable(h)
            },
    {
        let mut st = self.get_state(g);
        st.current = Some(h);
        self.groups.insert(g, st);
        StartDirectives {
            gain_on: h,
            loop_command: if st.loop_enabled {
                LoopCommand::Enable(h)
            } else {
                LoopCommand::Disable(h)
            },
        }
    }

    /// The whole track transition for one group in one step: the old
    /// handle comes out (for the caller to stop before starting the new
    /// track), the new handle goes in, and the directives for the new
    /// track reflect the group's persisted loop flag.
    pub fn begin_playback(&mut self, g: u64, h: u64) -> (r: (Option<u64>, StartDirectives))
        ensures
            r.0 == old(self).state_of(g).current,
            final(self).state_of(g).current == Some(h),
            final(self).state_of(g).loop_enabled == old(self).state_of(g).loop_enabled,
            forall|g2: u64| g2 != g ==> final(self).state_of(g2) == old(self).state_of(g2),
            r.1.gain_on == h,
            r.1.loop_command == if old(self).state_of(g).loop_enabled {
                LoopCommand::Enable(h)
            } else {
                LoopCommand::Disable(h)
            },
    {
        let stopped = self.take_current(g);
        let directives = self.commit_playback(g, h);
        (stopped, directives)
    }
}

} // verus!
