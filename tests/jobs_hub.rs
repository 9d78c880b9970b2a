use model_catalog::api::{begin_download, end_download};
use model_catalog::hub::{Broadcaster, Event, EventMsg, EventMsgLevel, CAPACITY};
use model_catalog::jobs::{JobError, JobState, JobTracker};

fn texts(events: &[Event]) -> Vec<String> {
    events
        .iter()
        .map(|e| match e {
            Event::Connected => "connected".to_string(),
            Event::Ping => "ping".to_string(),
            Event::Message(m) => {
                let level = match m.level {
                    EventMsgLevel::Info => "info",
                    EventMsgLevel::Warn => "warn",
                    EventMsgLevel::Error => "error",
                };
                format!("{}:{}", level, m.msg)
            }
        })
        .collect()
}

#[test]
fn job_first_terminal_state_kept() {
    let mut jobs = JobTracker::new();
    let id = jobs.add_job("Download x", "").ok().unwrap();
    assert_eq!(jobs.state_of(id), Some(JobState::InProgress));
    assert!(jobs.update_job(id, "", JobState::Succeed).is_ok());
    assert!(jobs.update_job(id, "boom", JobState::Failed).is_ok());
    assert_eq!(jobs.state_of(id), Some(JobState::Succeed));
    assert!(matches!(jobs.update_job(id + 1, "", JobState::Failed), Err(JobError::NotFound)));
    assert_eq!(jobs.state_of(id + 1), None);
}

#[test]
fn job_ids_are_distinct() {
    let mut jobs = JobTracker::new();
    let a = jobs.add_job("a", "").ok().unwrap();
    let b = jobs.add_job("b", "").ok().unwrap();
    assert_ne!(a, b);
    jobs.update_job(b, "bad", JobState::Failed).ok().unwrap();
    assert_eq!(jobs.state_of(a), Some(JobState::InProgress));
    assert_eq!(jobs.state_of(b), Some(JobState::Failed));
}

#[test]
fn subscriber_gets_each_broadcast_once() {
    let mut hub = Broadcaster::create();
    let early = hub.new_client().ok().unwrap();
    hub.info("hello");
    let late = hub.new_client().ok().unwrap();
    hub.broadcast(EventMsg { level: EventMsgLevel::Warn, msg: "careful".to_string() });
    assert_eq!(texts(&hub.receive(early)), vec!["connected", "info:hello", "warn:careful"]);
    assert_eq!(texts(&hub.receive(late)), vec!["connected", "warn:careful"]);
    assert!(hub.receive(early).is_empty());
    hub.error("bad");
    assert_eq!(texts(&hub.receive(early)), vec!["error:bad"]);
}

#[test]
fn failed_delivery_drops_subscriber() {
    let mut hub = Broadcaster::create();
    let gone = hub.new_client().ok().unwrap();
    let stays = hub.new_client().ok().unwrap();
    hub.disconnect(gone);
    assert!(hub.is_subscribed(gone));
    hub.remove_stale_clients();
    assert!(!hub.is_subscribed(gone));
    assert!(hub.is_subscribed(stays));
    assert_eq!(texts(&hub.receive(stays)), vec!["connected", "ping"]);
}

#[test]
fn full_mailbox_drops_subscriber() {
    let mut hub = Broadcaster::create();
    let slow = hub.new_client().ok().unwrap();
    for _ in 0..CAPACITY - 1 {
        hub.info("x");
    }
    assert!(hub.is_subscribed(slow));
    hub.info("one too many");
    assert!(!hub.is_subscribed(slow));
    assert!(hub.receive(slow).is_empty());
}

#[test]
fn download_bookkeeping_success() {
    let mut jobs = JobTracker::new();
    let mut hub = Broadcaster::create();
    let client = hub.new_client().ok().unwrap();
    let id = begin_download(&mut jobs, &mut hub, "http://h/f", "f.pt").ok().unwrap();
    assert_eq!(jobs.state_of(id), Some(JobState::InProgress));
    end_download(&mut jobs, &mut hub, Some(id), "http://h/f", "f.pt", None);
    assert_eq!(jobs.state_of(id), Some(JobState::Succeed));
    assert_eq!(
        texts(&hub.receive(client)),
        vec!["connected", "info:Downloading file f.pt: http://h/f", "info:Finished downloading f.pt"]
    );
}

#[test]
fn download_bookkeeping_failure() {
    let mut jobs = JobTracker::new();
    let mut hub = Broadcaster::create();
    let client = hub.new_client().ok().unwrap();
    let id = begin_download(&mut jobs, &mut hub, "u", "n").ok().unwrap();
    end_download(&mut jobs, &mut hub, Some(id), "u", "n", Some("hash mismatch"));
    assert_eq!(jobs.state_of(id), Some(JobState::Failed));
    assert_eq!(
        texts(&hub.receive(client)),
        vec!["connected", "info:Downloading file n: u", "error:Failed to download u: hash mismatch"]
    );
}
