use crate::signature::{Signature, SigView};
use crate::time::Timestamp;
use vstd::prelude::*;

verus! {

/// One sighting of a device during a scan cycle: when it was seen, who it
/// was, and how loud.
#[derive(Debug)]
pub struct DiscoveryEvent {
    pub date_time: Timestamp,
    pub signature: Signature,
    pub rssi: i16,
}

/// The mathematical value of a [`DiscoveryEvent`].
pub struct EventView {
    pub date_time: int,
    pub signature: SigView,
    pub rssi: int,
}

impl View for DiscoveryEvent {
    type V = EventView;

    open spec fn view(&self) -> EventView {
        EventView {
            date_time: self.date_time@,
            signature: self.signature@,
            rssi: self.rssi as int,
        }
    }
}

/// The view of a sequence of events: each event replaced by its mathematical
/// value.
pub open spec fn ev_views(s: Seq<DiscoveryEvent>) -> Seq<EventView> {
    s.map_values(|e: DiscoveryEvent| e@)
}

impl DiscoveryEvent {
    pub fn new(date_time: Timestamp, signature: Signature, rssi: i16) -> (r: DiscoveryEvent)
        ensures
            r@.date_time == date_time@,
            r@.signature == signature@,
            r@.rssi == rssi as int,
    {
        DiscoveryEvent { date_time, signature, rssi }
    }
}

impl Clone for DiscoveryEvent {
    fn clone(&self) -> (r: DiscoveryEvent)
        ensures
            r == *self,
    {
        DiscoveryEvent {
            date_time: self.date_time,
            signature: self.signature.clone(),
            rssi: self.rssi,
        }
    }
}

} // verus!
