use rust_concurrency::channels::{
    bounded_channel, finish_recv, unbounded_channel, BoundedConsumer, BoundedProducer,
    ChannelReceiveError, Consumer, SendFailure, TrySendFailure,
};

/// Blocking receive on an unbounded channel, finished by the library.
fn receive<T>(consumer: &Consumer<T>) -> Result<T, ChannelReceiveError> {
    finish_recv(consumer.std_receiver().recv())
}

/// Blocking receive on a bounded channel, finished by the library.
fn receive_bounded<T>(consumer: &BoundedConsumer<T>) -> Result<T, ChannelReceiveError> {
    finish_recv(consumer.std_receiver().recv())
}

/// Blocking send on a bounded channel; a failed send hands the message back.
fn send_bounded<T>(producer: &BoundedProducer<T>, value: T) -> Result<(), SendFailure<T>> {
    producer
        .std_sender()
        .send(value)
        .map_err(|error| SendFailure::Closed(error.0))
}

#[test]
fn empty_channel_closes_after_sender_drop() {
    let (producer, consumer) = unbounded_channel::<i32>();
    drop(producer);

    assert_eq!(receive(&consumer), Err(ChannelReceiveError::Closed));
}

#[test]
fn unbounded_channel_preserves_fifo_order() {
    let (producer, consumer) = unbounded_channel();

    producer.send("first").unwrap();
    producer.send("second").unwrap();
    producer.send("third").unwrap();

    assert_eq!(receive(&consumer), Ok("first"));
    assert_eq!(receive(&consumer), Ok("second"));
    assert_eq!(receive(&consumer), Ok("third"));
}

#[test]
fn receiver_observes_close_after_all_producers_drop() {
    let (producer, consumer) = unbounded_channel::<i32>();
    let producer_clone = producer.clone();

    producer.send(1).unwrap();

    drop(producer);
    assert_eq!(receive(&consumer), Ok(1));

    drop(producer_clone);
    assert_eq!(receive(&consumer), Err(ChannelReceiveError::Closed));
}

#[test]
fn bounded_channel_reports_backpressure_without_blocking() {
    let (producer, consumer) = bounded_channel(1);

    producer.try_send("first").unwrap();
    assert_eq!(
        producer.try_send("second"),
        Err(TrySendFailure::Full("second"))
    );

    assert_eq!(receive_bounded(&consumer), Ok("first"));
    producer.try_send("second").unwrap();
    assert_eq!(receive_bounded(&consumer), Ok("second"));
}

#[test]
fn bounded_channel_reports_closed_when_consumer_drops() {
    let (producer, consumer) = bounded_channel::<i32>(1);

    drop(consumer);

    assert_eq!(producer.try_send(7), Err(TrySendFailure::Closed(7)));
}

#[test]
fn send_after_consumer_drop_hands_the_message_back() {
    let (producer, consumer) = unbounded_channel();
    drop(consumer);
    assert_eq!(producer.send(7), Err(SendFailure::Closed(7)));
}

#[test]
fn bounded_send_and_clone_reach_the_consumer() {
    let (producer, consumer) = bounded_channel(2);
    let other = producer.clone();
    send_bounded(&producer, 1).unwrap();
    send_bounded(&other, 2).unwrap();
    assert_eq!(receive_bounded(&consumer), Ok(1));
    assert_eq!(receive_bounded(&consumer), Ok(2));
    drop(producer);
    drop(other);
    assert_eq!(receive_bounded(&consumer), Err(ChannelReceiveError::Closed));
}

#[test]
fn bounded_send_after_consumer_drop_fails() {
    let (producer, consumer) = bounded_channel(1);
    drop(consumer);
    assert_eq!(send_bounded(&producer, "late"), Err(SendFailure::Closed("late")));
}

#[test]
fn receive_error_converts_to_closed() {
    let converted: ChannelReceiveError = std::sync::mpsc::RecvError.into();
    assert_eq!(converted, ChannelReceiveError::Closed);
}
