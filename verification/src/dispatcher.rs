//! The command dispatcher: the entry point of the command channel.
//!
//! A [`SessionRegistry`] holds the channels, one for each vehicle. It is
//! handed to the [`Dispatcher`], which executes a command on a vehicle by
//! handing it to the vehicle's channel; fragments, ticks and failed writes
//! are handed on in the same way. The channels share nothing, so vehicles can
//! be driven side by side.

use vstd::prelude::*;
use crate::channel::{actions_view, Action, Channel};
use crate::channel_model::{fresh_channel_spec, ChannelConfig, ChannelView};
use crate::codec::{Domain, MAX_PARAMETERS_LEN};
use crate::error::ChannelError;
use crate::framer::link_usable;
use crate::negotiator::VehicleIdentity;
use crate::session::{bytes_equal, CryptoPolicy};

verus! {

/// A list of channels, as values.
pub open spec fn channels_view(channels: Seq<Channel>) -> Seq<ChannelView> {
    channels.map_values(|c: Channel| c@)
}

/// Whether a channel for the vehicle is among these.
pub open spec fn knows_vehicle(channels: Seq<ChannelView>, vehicle: Seq<u8>) -> bool {
    exists|i: int|
        0 <= i < channels.len() && (#[trigger] channels[i]).negotiator.identity.id == vehicle
}

/// Whether no two of these channels are for the same vehicle.
pub open spec fn vehicles_distinct(channels: Seq<ChannelView>) -> bool {
    forall|i: int, j: int|
        0 <= i < j < channels.len() ==> (#[trigger] channels[i]).negotiator.identity.id != (
        #[trigger] channels[j]).negotiator.identity.id
}

/// The registry of the channels, and with them of the sessions, one for each
/// vehicle.
pub struct SessionRegistry {
    channels: Vec<Channel>,
}

impl View for SessionRegistry {
    type V = Seq<ChannelView>;

    closed spec fn view(&self) -> Seq<ChannelView> {
        channels_view(self.channels@)
    }
}

impl SessionRegistry {
    /// The invariant of the registry: every channel is well formed, and no
    /// vehicle has two.
    pub closed spec fn wf(&self) -> bool {
        &&& forall|i: int| 0 <= i < self.channels@.len() ==> (#[trigger] self.channels@[i]).wf()
        &&& vehicles_distinct(self@)
    }

    /// What is known of every well-formed registry.
    pub proof fn lemma_wf(&self)
        requires
            self.wf(),
        ensures
            vehicles_distinct(self@),
            forall|i: int| 0 <= i < self@.len() ==> (#[trigger] self@[i]).wf(),
    {
        assert forall|i: int| 0 <= i < self@.len() implies (#[trigger] self@[i]).wf() by {
            self.channels@[i].lemma_wf();
        }
    }

    /// A registry without channels.
    pub fn new() -> (registry: SessionRegistry)
        ensures
            registry.wf(),
            registry@ == Seq::<ChannelView>::empty(),
    {
        let registry = SessionRegistry { channels: Vec::new() };
        assert(registry@ =~= Seq::<ChannelView>::empty());
        registry
    }

    /// Where the channel of a vehicle is.
    fn find(&self, vehicle: &[u8]) -> (r: Option<usize>)
        ensures
            match r {
                Some(i) => i < self@.len() && self@[i as int].negotiator.identity.id == vehicle@,
                None => !knows_vehicle(self@, vehicle@),
            },
    {
        let mut i: usize = 0;
        while i < self.channels.len()
            invariant
                i <= self.channels@.len(),
                forall|j: int|
                    0 <= j < i ==> (#[trigger] self@[j]).negotiator.identity.id != vehicle@,
            decreases self.channels@.len() - i,
        {
            if bytes_equal(
                self.channels[i].negotiator().identity().id.as_slice(),
                vehicle,
            ) {
                return Some(i);
            }
            i = i + 1;
        }
        None
    }

    /// Whether a channel is registered for the vehicle.
    pub fn knows(&self, vehicle: &[u8]) -> (r: bool)
        ensures
            r == knows_vehicle(self@, vehicle@),
    {
        self.find(vehicle).is_some()
    }

    /// The channel of a vehicle, if one is registered.
    pub fn channel(&self, vehicle: &[u8]) -> (r: Option<&Channel>)
        requires
            self.wf(),
        ensures
            match r {
                Some(c) => c.wf() && c@.negotiator.identity.id == vehicle@ && exists|i: int|
                    0 <= i < self@.len() && #[trigger] self@[i] == c@,
                None => !knows_vehicle(self@, vehicle@),
            },
    {
        match self.find(vehicle) {
            Some(i) => {
                assert(self@[i as int] == self.channels@[i as int]@);
                Some(&self.channels[i])
            },
            None => None,
        }
    }

    /// Registers a channel for a vehicle, with nothing under way. Fails with
    /// `DuplicateVehicle` where the vehicle has a channel already, and with
    /// `LinkError` where the link has no room for a chunk. A failure changes
    /// nothing.
    pub fn register(&mut self, identity: VehicleIdentity, config: ChannelConfig) -> (r: Result<
        (),
        ChannelError,
    >)
        requires
            old(self).wf(),
        ensures
            final(self).wf(),
            knows_vehicle(old(self)@, identity.id@) ==> r == Err::<(), ChannelError>(
                ChannelError::DuplicateVehicle,
            ) && final(self)@ == old(self)@,
            !knows_vehicle(old(self)@, identity.id@) && !link_usable(config.max_write as int) ==> r
                == Err::<(), ChannelError>(ChannelError::LinkError) && final(self)@ == old(self)@,
            !knows_vehicle(old(self)@, identity.id@) && link_usable(config.max_write as int) ==> r
                is Ok && final(self)@ == old(self)@.push(fresh_channel_spec(identity@, config)),
    {
        if self.find(identity.id.as_slice()).is_some() {
            return Err(ChannelError::DuplicateVehicle);
        }
        let channel = match Channel::new(identity, config) {
            Ok(channel) => channel,
            Err(e) => {
                return Err(e);
            },
        };
        self.channels.push(channel);
        proof {
            assert(self@ =~= old(self)@.push(fresh_channel_spec(identity@, config)));
            assert forall|i: int, j: int| 0 <= i < j < self@.len() implies (
            #[trigger] self@[i]).negotiator.identity.id != (
            #[trigger] self@[j]).negotiator.identity.id by {
                if j < old(self)@.len() {
                    assert(self@[i] == old(self)@[i]);
                    assert(self@[j] == old(self)@[j]);
                } else {
                    assert(self@[i] == old(self)@[i]);
                }
            }
        }
        Ok(())
    }
}

/// The command dispatcher. It works on the registry that it is handed: an
/// event for one vehicle moves that vehicle's channel and leaves every other
/// as it is.
pub struct Dispatcher {
    registry: SessionRegistry,
}

impl View for Dispatcher {
    type V = Seq<ChannelView>;

    closed spec fn view(&self) -> Seq<ChannelView> {
        self.registry@
    }
}

impl Dispatcher {
    /// The invariant of the dispatcher: that of its registry.
    pub closed spec fn wf(&self) -> bool {
        self.registry.wf()
    }

    /// What is known of every well-formed dispatcher.
    pub proof fn lemma_wf(&self)
        requires
            self.wf(),
        ensures
            vehicles_distinct(self@),
            forall|i: int| 0 <= i < self@.len() ==> (#[trigger] self@[i]).wf(),
    {
        self.registry.lemma_wf();
    }

    /// A dispatcher for the vehicles of a registry.
    pub fn new(registry: SessionRegistry) -> (d: Dispatcher)
        requires
            registry.wf(),
        ensures
            d.wf(),
            d@ == registry@,
    {
        Dispatcher { registry }
    }

    /// The registry that the dispatcher works on.
    pub fn registry(&self) -> (registry: &SessionRegistry)
        ensures
            registry@ == self@,
            self.wf() ==> registry.wf(),
    {
        &self.registry
    }

    /// Gives the registry back.
    pub fn into_registry(self) -> (registry: SessionRegistry)
        ensures
            registry@ == self@,
            self.wf() ==> registry.wf(),
    {
        self.registry
    }

    /// Registers a channel for one more vehicle, as
    /// [`SessionRegistry::register`] says.
    pub fn register(&mut self, identity: VehicleIdentity, config: ChannelConfig) -> (r: Result<
        (),
        ChannelError,
    >)
        requires
            old(self).wf(),
        ensures
            final(self).wf(),
            knows_vehicle(old(self)@, identity.id@) ==> r == Err::<(), ChannelError>(
                ChannelError::DuplicateVehicle,
            ) && final(self)@ == old(self)@,
            !knows_vehicle(old(self)@, identity.id@) && !link_usable(config.max_write as int) ==> r
                == Err::<(), ChannelError>(ChannelError::LinkError) && final(self)@ == old(self)@,
            !knows_vehicle(old(self)@, identity.id@) && link_usable(config.max_write as int) ==> r
                is Ok && final(self)@ == old(self)@.push(fresh_channel_spec(identity@, config)),
    {
        self.registry.register(identity, config)
    }

    /// Executes a command on a vehicle: the command is taken in by the
    /// vehicle's channel at tick `now` as [`Channel::execute`] says. Returns
    /// the number of the request and the actions to perform; the outcome of
    /// the command comes with the `Resolve` action of that number.
    ///
    /// Fails with `UnknownVehicle` where no channel is registered for the
    /// vehicle. No other channel is touched.
    pub fn execute<P: CryptoPolicy>(
        &mut self,
        policy: &mut P,
        vehicle: &[u8],
        domain: Domain,
        operation: u16,
        parameters: &[u8],
        timeout: u64,
        now: u64,
    ) -> (r: Result<(u64, Vec<Action>), ChannelError>)
        requires
            old(self).wf(),
        ensures
            final(self).wf(),
            final(self)@.len() == old(self)@.len(),
            !knows_vehicle(old(self)@, vehicle@) ==> r == Err::<(u64, Vec<Action>), ChannelError>(
                ChannelError::UnknownVehicle,
            ) && final(self)@ == old(self)@,
            forall|i: int|
                0 <= i < old(self)@.len() && (#[trigger] old(self)@[i]).negotiator.identity.id
                    != vehicle@ ==> final(self)@[i] == old(self)@[i],
            forall|i: int|
                0 <= i < old(self)@.len() && (#[trigger] old(self)@[i]).negotiator.identity.id
                    == vehicle@ ==> {
                    let before = old(self)@[i];
                    let after = final(self)@[i];
                    &&& parameters@.len() > MAX_PARAMETERS_LEN ==> r == Err::<
                        (u64, Vec<Action>),
                        ChannelError,
                    >(ChannelError::MalformedMessage) && after == before
                    &&& parameters@.len() <= MAX_PARAMETERS_LEN && before.next_id == u64::MAX ==> r
                        == Err::<(u64, Vec<Action>), ChannelError>(ChannelError::Exhausted) && after
                        == before
                    &&& before.admits(parameters@) ==> r is Ok && r.unwrap().0 == before.next_id
                        && before.execute_by(
                        &*old(policy),
                        domain,
                        operation,
                        parameters@,
                        timeout,
                        now,
                        (after, actions_view(r.unwrap().1@)),
                    )
                },
    {
        let at: usize = match self.registry.find(vehicle) {
            Some(at) => at,
            None => {
                return Err(ChannelError::UnknownVehicle);
            },
        };
        let ghost before = self.registry.channels@;
        let r =
        self.registry.channels[at].execute(policy, domain, operation, parameters, timeout, now);
        proof {
            lemma_one_changed(before, self.registry.channels@, at as int);
        }
        r
    }

    /// Takes a fragment that arrived from a vehicle at tick `now`, as
    /// [`Channel::on_fragment`] says. Fails with `UnknownVehicle` where no
    /// channel is registered for the vehicle. No other channel is touched.
    pub fn on_fragment<P: CryptoPolicy>(
        &mut self,
        policy: &mut P,
        vehicle: &[u8],
        fragment: &[u8],
        now: u64,
    ) -> (r: Result<Vec<Action>, ChannelError>)
        requires
            old(self).wf(),
        ensures
            final(self).wf(),
            final(self)@.len() == old(self)@.len(),
            !knows_vehicle(old(self)@, vehicle@) ==> r == Err::<Vec<Action>, ChannelError>(
                ChannelError::UnknownVehicle,
            ) && final(self)@ == old(self)@,
            forall|i: int|
                0 <= i < old(self)@.len() && (#[trigger] old(self)@[i]).negotiator.identity.id
                    != vehicle@ ==> final(self)@[i] == old(self)@[i],
            forall|i: int|
                0 <= i < old(self)@.len() && (#[trigger] old(self)@[i]).negotiator.identity.id
                    == vehicle@ ==> r is Ok && old(self)@[i].arrival_by(
                    &*old(policy),
                    fragment@,
                    now,
                    (final(self)@[i], actions_view(r.unwrap()@)),
                ),
    {
        let at: usize = match self.registry.find(vehicle) {
            Some(at) => at,
            None => {
                return Err(ChannelError::UnknownVehicle);
            },
        };
        let ghost before = self.registry.channels@;
        let actions = self.registry.channels[at].on_fragment(policy, fragment, now);
        proof {
            lemma_one_changed(before, self.registry.channels@, at as int);
        }
        Ok(actions)
    }

    /// Lets time pass for a vehicle up to tick `now`, as [`Channel::on_tick`]
    /// says. Fails with `UnknownVehicle` where no channel is registered for
    /// the vehicle. No other channel is touched.
    pub fn on_tick<P: CryptoPolicy>(&mut self, policy: &mut P, vehicle: &[u8], now: u64) -> (r:
        Result<Vec<Action>, ChannelError>)
        requires
            old(self).wf(),
        ensures
            final(self).wf(),
            final(self)@.len() == old(self)@.len(),
            !knows_vehicle(old(self)@, vehicle@) ==> r == Err::<Vec<Action>, ChannelError>(
                ChannelError::UnknownVehicle,
            ) && final(self)@ == old(self)@,
            forall|i: int|
                0 <= i < old(self)@.len() && (#[trigger] old(self)@[i]).negotiator.identity.id
                    != vehicle@ ==> final(self)@[i] == old(self)@[i],
            forall|i: int|
                0 <= i < old(self)@.len() && (#[trigger] old(self)@[i]).negotiator.identity.id
                    == vehicle@ ==> r is Ok && old(self)@[i].tick_by(
                    &*old(policy),
                    now,
                    (final(self)@[i], actions_view(r.unwrap()@)),
                ),
    {
        let at: usize = match self.registry.find(vehicle) {
            Some(at) => at,
            None => {
                return Err(ChannelError::UnknownVehicle);
            },
        };
        let ghost before = self.registry.channels@;
        let actions = self.registry.channels[at].on_tick(policy, now);
        proof {
            lemma_one_changed(before, self.registry.channels@, at as int);
        }
        Ok(actions)
    }

    /// Takes note that a write to a vehicle's link has failed, as
    /// [`Channel::on_link_error`] says. Fails with `UnknownVehicle` where no
    /// channel is registered for the vehicle. No other channel is touched.
    pub fn on_link_error(&mut self, vehicle: &[u8]) -> (r: Result<Vec<Action>, ChannelError>)
        requires
            old(self).wf(),
        ensures
            final(self).wf(),
            final(self)@.len() == old(self)@.len(),
            !knows_vehicle(old(self)@, vehicle@) ==> r == Err::<Vec<Action>, ChannelError>(
                ChannelError::UnknownVehicle,
            ) && final(self)@ == old(self)@,
            forall|i: int|
                0 <= i < old(self)@.len() && (#[trigger] old(self)@[i]).negotiator.identity.id
                    != vehicle@ ==> final(self)@[i] == old(self)@[i],
            forall|i: int|
                0 <= i < old(self)@.len() && (#[trigger] old(self)@[i]).negotiator.identity.id
                    == vehicle@ ==> r is Ok && old(self)@[i].link_failed_spec() == (
                    final(self)@[i],
                    actions_view(r.unwrap()@),
                ),
    {
        let at: usize = match self.registry.find(vehicle) {
            Some(at) => at,
            None => {
                return Err(ChannelError::UnknownVehicle);
            },
        };
        let ghost before = self.registry.channels@;
        let actions = self.registry.channels[at].on_link_error();
        proof {
            lemma_one_changed(before, self.registry.channels@, at as int);
        }
        Ok(actions)
    }
}

/// Where one channel of a list has changed and kept its vehicle, every other
/// is as it was, and the vehicles are as distinct as they were.
proof fn lemma_one_changed(before: Seq<Channel>, after: Seq<Channel>, at: int)
    requires
        0 <= at < before.len(),
        after == before.update(at, after[at]),
        vehicles_distinct(channels_view(before)),
        after[at]@.negotiator.identity.id == before[at]@.negotiator.identity.id,
    ensures
        channels_view(after).len() == channels_view(before).len(),
        vehicles_distinct(channels_view(after)),
        forall|i: int|
            0 <= i < before.len() && i != at ==> #[trigger] channels_view(after)[i]
                == channels_view(before)[i],
        forall|i: int|
            0 <= i < before.len() && (#[trigger] channels_view(before)[i]).negotiator.identity.id
                == before[at]@.negotiator.identity.id ==> i == at,
{
    let old_views = channels_view(before);
    let new_views = channels_view(after);
    assert forall|i: int, j: int| 0 <= i < j < new_views.len() implies (
    #[trigger] new_views[i]).negotiator.identity.id != (
    #[trigger] new_views[j]).negotiator.identity.id by {
        assert(new_views[i].negotiator.identity.id == old_views[i].negotiator.identity.id);
        assert(new_views[j].negotiator.identity.id == old_views[j].negotiator.identity.id);
    }
    assert forall|i: int|
        0 <= i < before.len() && (#[trigger] old_views[i]).negotiator.identity.id
            == before[at]@.negotiator.identity.id implies i == at by {
        assert(old_views[at] == before[at]@);
        if i < at {
            assert(old_views[i].negotiator.identity.id != old_views[at].negotiator.identity.id);
        } else if at < i {
            assert(old_views[at].negotiator.identity.id != old_views[i].negotiator.identity.id);
        }
    }
}

} // verus!
