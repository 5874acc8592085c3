use moka::channel::{ChannelInner, SendError, TryRecvError, TrySendError};

#[test]
fn fresh_channel_is_empty_with_one_sender() {
    let ch: ChannelInner<u32> = ChannelInner::new(384);
    assert_eq!(ch.len(), 0);
    assert_eq!(ch.capacity(), 384);
    assert_eq!(ch.sender_count(), 1);
    assert!(!ch.is_receiver_dropped());
}

#[test]
fn values_come_out_in_the_order_sent() {
    let mut ch: ChannelInner<u32> = ChannelInner::new(10);
    for v in [10, 20, 30] {
        assert!(ch.try_send(v).is_ok());
    }
    assert_eq!(ch.len(), 3);
    assert_eq!(ch.try_recv().ok(), Some(10));
    assert!(ch.send(40).is_ok());
    assert_eq!(ch.try_recv().ok(), Some(20));
    assert_eq!(ch.try_recv().ok(), Some(30));
    assert_eq!(ch.try_recv().ok(), Some(40));
    assert_eq!(ch.len(), 0);
}

#[test]
fn try_send_refuses_when_full_and_hands_the_value_back() {
    let mut ch: ChannelInner<u32> = ChannelInner::new(2);
    assert!(ch.try_send(1).is_ok());
    assert!(ch.try_send(2).is_ok());
    match ch.try_send(3) {
        Err(TrySendError::Full(v)) => assert_eq!(v, 3),
        _ => panic!("expected Full"),
    }
    assert_eq!(ch.len(), 2);
    assert_eq!(ch.try_recv().ok(), Some(1));
    assert!(ch.try_send(3).is_ok());
    assert_eq!(ch.try_recv().ok(), Some(2));
    assert_eq!(ch.try_recv().ok(), Some(3));
}

#[test]
fn zero_capacity_channel_is_always_full_for_try_send() {
    let mut ch: ChannelInner<u32> = ChannelInner::new(0);
    let e = ch.try_send(7).err().unwrap();
    assert!(e.is_full());
    assert_eq!(e.into_inner(), 7);
    assert_eq!(ch.len(), 0);
}

#[test]
fn blocking_send_ignores_capacity() {
    let mut ch: ChannelInner<u32> = ChannelInner::new(1);
    assert!(ch.send(1).is_ok());
    assert!(ch.send(2).is_ok());
    assert_eq!(ch.len(), 2);
    assert!(ch.try_send(3).is_err());
}

#[test]
fn dropped_receiver_disconnects_senders() {
    let mut ch: ChannelInner<String> = ChannelInner::new(5);
    assert!(ch.try_send("a".to_string()).is_ok());
    ch.drop_receiver();
    assert!(ch.is_receiver_dropped());
    match ch.try_send("b".to_string()) {
        Err(TrySendError::Disconnected(v)) => assert_eq!(v, "b"),
        _ => panic!("expected Disconnected"),
    }
    match ch.send("c".to_string()) {
        Err(SendError(v)) => assert_eq!(v, "c"),
        Ok(()) => panic!("expected SendError"),
    }
    assert_eq!(ch.len(), 1);
}

#[test]
fn try_recv_reports_empty_while_a_sender_lives() {
    let mut ch: ChannelInner<u32> = ChannelInner::new(3);
    assert_eq!(ch.try_recv().err(), Some(TryRecvError::Empty));
}

#[test]
fn try_recv_reports_disconnected_without_senders() {
    let mut ch: ChannelInner<u32> = ChannelInner::new(3);
    assert!(ch.try_send(5).is_ok());
    ch.remove_sender();
    assert_eq!(ch.sender_count(), 0);
    // Queued values are still delivered after the last sender is gone.
    assert_eq!(ch.try_recv().ok(), Some(5));
    assert_eq!(ch.try_recv().err(), Some(TryRecvError::Disconnected));
}

#[test]
fn cloning_then_dropping_a_sender_restores_the_count() {
    let mut ch: ChannelInner<u32> = ChannelInner::new(3);
    ch.add_sender();
    ch.add_sender();
    assert_eq!(ch.sender_count(), 3);
    ch.remove_sender();
    ch.remove_sender();
    assert_eq!(ch.sender_count(), 1);
    assert_eq!(ch.try_recv().err(), Some(TryRecvError::Empty));
}

#[test]
fn error_debug_text_leaves_the_value_out() {
    let full: TrySendError<u32> = TrySendError::Full(1);
    let gone: TrySendError<u32> = TrySendError::Disconnected(2);
    assert_eq!(full.debug_string(), "TrySendError::Full(..)");
    assert_eq!(gone.debug_string(), "TrySendError::Disconnected(..)");
    assert_eq!(SendError(3u32).debug_string(), "SendError(..)");
}

#[test]
fn len_counts_accepted_sends_minus_delivered_receives() {
    let mut ch: ChannelInner<u32> = ChannelInner::new(2);
    let mut accepted = 0usize;
    let mut delivered = 0usize;
    for v in 0..5u32 {
        if ch.try_send(v).is_ok() {
            accepted += 1;
        }
    }
    assert_eq!(accepted, 2);
    if ch.try_recv().is_ok() {
        delivered += 1;
    }
    if ch.send(9).is_ok() {
        accepted += 1;
    }
    ch.add_sender();
    ch.remove_sender();
    assert_eq!(ch.len(), accepted - delivered);
    assert_eq!(ch.len(), 2);
}
