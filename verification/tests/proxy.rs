use std::sync::Arc;
use std::time::Duration;

use arborui::proxy::{
    event_channel, EventIngressMetrics, EventProxy, EventProxySendErrorKind, EventReceiver,
};
use arborui::wake::WakeSignal;

/// The runner's end as a runner holds it: closing the ingress when dropped.
struct ClosingReceiver<Message>(EventReceiver<Message>);

impl<Message> Drop for ClosingReceiver<Message> {
    fn drop(&mut self) {
        self.0.close();
    }
}

impl<Message> std::ops::Deref for ClosingReceiver<Message> {
    type Target = EventReceiver<Message>;

    fn deref(&self) -> &EventReceiver<Message> {
        &self.0
    }
}

fn test_event_channel<Message>(
    capacity: usize,
    wake: Arc<WakeSignal>,
) -> (EventProxy<Message>, ClosingReceiver<Message>) {
    let (proxy, receiver) = event_channel(capacity, wake);
    (proxy, ClosingReceiver(receiver))
}

struct ReentrantDrop {
    proxy: EventProxy<Self>,
}

impl Drop for ReentrantDrop {
    fn drop(&mut self) {
        let _metrics = self.proxy.metrics();
    }
}

#[test]
fn full_ingress_rejects_new_message_and_recovers_ownership() {
    let wake = Arc::new(WakeSignal::new());
    let (proxy, receiver) = test_event_channel(2, wake);

    assert!(proxy.send(String::from("first")).is_ok());
    assert!(proxy.send(String::from("second")).is_ok());
    let error = proxy
        .send(String::from("rejected"))
        .expect_err("third message should exceed capacity");

    assert_eq!(error.kind(), EventProxySendErrorKind::Full);
    assert_eq!(error.into_inner(), "rejected");
    assert_eq!(
        proxy.metrics(),
        EventIngressMetrics {
            capacity: 2,
            depth: 2,
            high_water_mark: 2,
            rejected: 1,
            accepted: 2,
            dequeued: 0,
            total_queue_latency: Duration::ZERO,
            max_queue_latency: Duration::ZERO,
            closed: false,
        }
    );
    assert_eq!(receiver.receive().as_deref(), Some("first"));
    assert_eq!(receiver.receive().as_deref(), Some("second"));
}

#[test]
fn clones_share_capacity_and_processing_frees_a_slot() {
    let wake = Arc::new(WakeSignal::new());
    let (proxy, receiver) = test_event_channel(1, Arc::clone(&wake));
    let clone = proxy.clone();

    assert!(proxy.send(1).is_ok());
    assert!(wake.is_notified());
    wake.wait(std::time::Duration::ZERO);
    let error = clone
        .send(2)
        .expect_err("cloned proxies should share capacity");
    assert!(!wake.is_notified());
    assert_eq!(receiver.receive(), Some(1));
    assert!(clone.send(error.into_inner()).is_ok());
    assert_eq!(receiver.receive(), Some(2));
    assert_eq!(proxy.metrics().high_water_mark, 1);
    assert_eq!(proxy.metrics().rejected, 1);
}

#[test]
fn dropping_receiver_closes_ingress_and_recovers_message() {
    let wake = Arc::new(WakeSignal::new());
    let (proxy, receiver) = test_event_channel(1, wake);
    drop(receiver);

    let error = proxy
        .send(String::from("not delivered"))
        .expect_err("closed ingress should reject messages");

    assert_eq!(error.kind(), EventProxySendErrorKind::Closed);
    assert_eq!(error.into_inner(), "not delivered");
    assert!(proxy.metrics().closed);
}

#[test]
fn closing_drops_pending_messages_outside_the_ingress_lock() {
    let wake = Arc::new(WakeSignal::new());
    let (proxy, receiver) = test_event_channel(1, wake);
    assert!(
        proxy
            .send(ReentrantDrop {
                proxy: proxy.clone(),
            })
            .is_ok()
    );

    drop(receiver);

    assert!(proxy.metrics().closed);
    assert_eq!(proxy.metrics().depth, 0);
}
