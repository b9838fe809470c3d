use crate::discover::{DiscoveryEvent, EventView};
use crate::signature::{Signature, SigView};
use crate::time::Timestamp;
use vstd::prelude::*;

verus! {

/// The last-known state of one device: created on first sighting, and
/// overwritten in place (last write wins) on every later sighting.
#[derive(Debug)]
pub struct DeviceState {
    pub date_time: Timestamp,
    pub signature: Signature,
    pub rssi: i16,
}

/// The mathematical value of a [`DeviceState`].
pub struct DeviceStateView {
    pub date_time: int,
    pub signature: SigView,
    pub rssi: int,
}

impl View for DeviceState {
    type V = DeviceStateView;

    open spec fn view(&self) -> DeviceStateView {
        DeviceStateView {
            date_time: self.date_time@,
            signature: self.signature@,
            rssi: self.rssi as int,
        }
    }
}

/// The device record that one sighting leaves behind.
pub open spec fn record_of(e: EventView) -> DeviceStateView {
    DeviceStateView { date_time: e.date_time, signature: e.signature, rssi: e.rssi }
}

impl DeviceState {
    pub fn new(date_time: Timestamp, signature: Signature, rssi: i16) -> (r: DeviceState)
        ensures
            r@.date_time == date_time@,
            r@.signature == signature@,
            r@.rssi == rssi as int,
    {
        DeviceState { date_time, signature, rssi }
    }

    pub fn from_event(event: &DiscoveryEvent) -> (r: DeviceState)
        ensures
            r@ == record_of(event@),
    {
        DeviceState {
            date_time: event.date_time,
            signature: event.signature.clone(),
            rssi: event.rssi,
        }
    }

    /// Last write wins: the timestamp and signal strength are overwritten;
    /// the signature never changes.
    pub fn update(&mut self, event: &DiscoveryEvent)
        ensures
            final(self)@.date_time == event@.date_time,
            final(self)@.rssi == event@.rssi,
            final(self)@.signature == old(self)@.signature,
    {
        self.date_time = event.date_time;
        self.rssi = event.rssi;
    }
}

impl Clone for DeviceState {
    fn clone(&self) -> (r: DeviceState)
        ensures
            r == *self,
    {
        DeviceState {
            date_time: self.date_time,
            signature: self.signature.clone(),
            rssi: self.rssi,
        }
    }
}

impl PartialEq for DeviceState {
    fn eq(&self, other: &DeviceState) -> (r: bool) {
        self.date_time == other.date_time && self.signature == other.signature && self.rssi
            == other.rssi
    }
}

impl vstd::std_specs::cmp::PartialEqSpecImpl for DeviceState {
    open spec fn obeys_eq_spec() -> bool {
        true
    }

    open spec fn eq_spec(&self, other: &DeviceState) -> bool {
        self@ == other@
    }
}

impl Eq for DeviceState {}

} // verus!
