use ph::pool::Producer;

#[test]
fn new_makes_one_channel_per_worker() {
    let (_producer, receivers) = Producer::<u32>::new(3);
    assert_eq!(receivers.len(), 3);
}

#[test]
fn send_deals_jobs_out_in_turn() {
    let (mut producer, receivers) = Producer::<u32>::new(3);
    for job in 0..7u32 {
        producer.send(job).unwrap();
    }
    let got: Vec<Vec<u32>> = receivers.iter().map(|rx| rx.receiver().try_iter().collect()).collect();
    assert_eq!(got, vec![vec![0, 3, 6], vec![1, 4], vec![2, 5]]);
}

#[test]
fn send_main_goes_to_worker_zero() {
    let (mut producer, receivers) = Producer::<u32>::new(2);
    producer.send(1).unwrap();
    producer.send_main(9).unwrap();
    producer.send(2).unwrap();
    let first: Vec<u32> = receivers[0].receiver().try_iter().collect();
    let second: Vec<u32> = receivers[1].receiver().try_iter().collect();
    assert_eq!(first, vec![1, 9]);
    assert_eq!(second, vec![2]);
}

#[test]
fn clone_continues_at_the_same_turn() {
    let (mut producer, receivers) = Producer::<u32>::new(2);
    producer.send(1).unwrap();
    let mut copy = producer.clone();
    copy.send(2).unwrap();
    producer.send(3).unwrap();
    let first: Vec<u32> = receivers[0].receiver().try_iter().collect();
    let second: Vec<u32> = receivers[1].receiver().try_iter().collect();
    assert_eq!(first, vec![1]);
    assert_eq!(second, vec![2, 3]);
}

#[test]
fn send_to_a_gone_worker_hands_the_job_back() {
    let (mut producer, receivers) = Producer::<u32>::new(1);
    drop(receivers);
    let err = producer.send(5).unwrap_err();
    assert_eq!(err.0, 5);
}
