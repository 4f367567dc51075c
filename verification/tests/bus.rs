use message_bus::{Bus, Message};

fn drain(bus: &mut Bus<u64>) -> Vec<u64> {
    let mut out = Vec::new();
    loop {
        match bus.try_recv() {
            Some(v) => out.push(v),
            None => break,
        }
    }
    out
}

#[test]
fn check_messages_are_returned_at_correct_time() {
    //Create a bus
    let mut bus = Bus::<u64>::new();

    //Send messages down bus, each message contains the time it should be received
    for i in 0..1000 {
        bus.send(Message::<u64>::new(i as u64, i as u64));
        bus.send(Message::<u64>::new(i as u64, i as u64));
        bus.send(Message::<u64>::new(i as u64, i as u64));
    }

    for i in 0..1000 {
        //Tick, publishing received messages
        bus.tick(i);

        //Receive messages from the bus
        loop {
            match bus.try_recv() {
                Some(v) => {
                    assert_eq!(v, i);
                }
                None => {
                    break;
                }
            }
        }
    }
}

#[test]
fn every_message_comes_out_once_at_its_own_tick() {
    let mut bus = Bus::<u64>::new();
    for i in 0..1000u64 {
        bus.send(Message::new(i, i));
        bus.send(Message::new(i, i));
        bus.send(Message::new(i, i));
    }
    for i in 0..1000u64 {
        bus.tick(i);
        assert_eq!(drain(&mut bus), vec![i, i, i]);
    }
    bus.tick(1000);
    assert_eq!(drain(&mut bus), Vec::<u64>::new());
}

#[test]
fn three_messages_at_ticks_zero_one_two() {
    let mut bus = Bus::<u64>::new();
    bus.send(Message::new(10, 0));
    bus.send(Message::new(11, 1));
    bus.send(Message::new(12, 2));
    bus.tick(0);
    assert_eq!(drain(&mut bus), vec![10]);
    bus.tick(1);
    assert_eq!(drain(&mut bus), vec![11]);
    bus.tick(2);
    assert_eq!(drain(&mut bus), vec![12]);
    bus.tick(3);
    assert_eq!(drain(&mut bus), Vec::<u64>::new());
}

#[test]
fn new_bus_has_nothing_ready() {
    let mut bus = Bus::<u64>::new();
    assert_eq!(bus.try_recv(), None);
    bus.tick(0);
    assert_eq!(bus.try_recv(), None);
    bus.tick(64);
    assert_eq!(bus.try_recv(), None);
}

#[test]
fn nothing_is_released_before_a_tick() {
    let mut bus = Bus::<u64>::new();
    bus.send(Message::new(5, 0));
    assert_eq!(bus.try_recv(), None);
    bus.tick(0);
    assert_eq!(bus.try_recv(), Some(5));
    assert_eq!(bus.try_recv(), None);
}

#[test]
fn overdue_input_is_released_at_the_next_tick_in_input_order() {
    let mut bus = Bus::<u64>::new();
    bus.tick(99);
    bus.send(Message::new(1, 40));
    bus.send(Message::new(2, 100));
    bus.send(Message::new(3, 0));
    bus.send(Message::new(4, 101));
    bus.send(Message::new(5, 99));
    bus.tick(100);
    assert_eq!(drain(&mut bus), vec![1, 2, 3, 5]);
    bus.tick(101);
    assert_eq!(drain(&mut bus), vec![4]);
}

#[test]
fn ready_payloads_are_taken_oldest_first_across_ticks() {
    let mut bus = Bus::<u64>::new();
    bus.send(Message::new(1, 0));
    bus.send(Message::new(2, 1));
    bus.send(Message::new(3, 0));
    bus.tick(0);
    bus.tick(1);
    bus.send(Message::new(4, 2));
    bus.tick(2);
    assert_eq!(drain(&mut bus), vec![1, 3, 2, 4]);
}

#[test]
fn a_bucket_is_emptied_from_its_back() {
    let mut bus = Bus::<u64>::new();
    bus.send(Message::new(1, 4));
    bus.send(Message::new(2, 4));
    bus.send(Message::new(3, 4));
    bus.tick(3);
    assert_eq!(drain(&mut bus), Vec::<u64>::new());
    bus.tick(4);
    assert_eq!(drain(&mut bus), vec![3, 2, 1]);
}

#[test]
fn messages_handed_in_late_still_come_out_on_time() {
    let mut bus = Bus::<u64>::new();
    let mut expected = 0usize;
    let mut got = 0usize;
    for now in 0..600u64 {
        let ahead = (now * 7) % 131;
        bus.send(Message::new(now + ahead, now + ahead));
        expected += 1;
        bus.tick(now);
        for v in drain(&mut bus) {
            assert_eq!(v, now);
            got += 1;
        }
    }
    for now in 600..740u64 {
        bus.tick(now);
        for v in drain(&mut bus) {
            assert_eq!(v, now);
            got += 1;
        }
    }
    assert_eq!(got, expected);
}

#[test]
fn a_run_that_starts_late_is_on_time_too() {
    let mut bus = Bus::<u64>::new();
    for i in 0..300u64 {
        bus.send(Message::new(1000 + i, 1000 + i));
    }
    for now in 1000..1300u64 {
        bus.tick(now);
        assert_eq!(drain(&mut bus), vec![now]);
    }
}

#[test]
fn skipped_ticks_release_late_but_never_early_and_never_twice() {
    let mut bus = Bus::<u64>::new();
    for i in 0..200u64 {
        bus.send(Message::new(i, i));
    }
    let mut seen = vec![0u32; 200];
    let mut now = 1u64;
    while now < 2000 {
        bus.tick(now);
        for v in drain(&mut bus) {
            assert!(v <= now);
            seen[v as usize] += 1;
        }
        now += 2;
    }
    for now in 2000..2100u64 {
        bus.tick(now);
        for v in drain(&mut bus) {
            assert!(v <= now);
            seen[v as usize] += 1;
        }
    }
    assert!(seen.iter().all(|&count| count == 1));
}

#[test]
fn odd_ticks_alone_never_look_at_the_second_bucket() {
    let mut bus = Bus::<u64>::new();
    bus.send(Message::new(7, 3));
    bus.tick(1);
    for now in [3u64, 5, 7, 9, 11, 13] {
        bus.tick(now);
        assert_eq!(bus.try_recv(), None);
    }
    bus.tick(14);
    assert_eq!(bus.try_recv(), Some(7));
}

#[test]
fn a_repeated_tick_releases_nothing_more() {
    let mut bus = Bus::<u64>::new();
    bus.send(Message::new(1, 6));
    bus.send(Message::new(2, 7));
    for now in 0..6u64 {
        bus.tick(now);
        bus.tick(now);
    }
    assert_eq!(bus.try_recv(), None);
    bus.tick(6);
    bus.tick(6);
    assert_eq!(drain(&mut bus), vec![1]);
    bus.tick(7);
    assert_eq!(drain(&mut bus), vec![2]);
}

#[test]
fn a_clock_that_goes_back_loses_nothing() {
    let mut bus = Bus::<u64>::new();
    bus.send(Message::new(1, 50));
    bus.tick(48);
    bus.tick(2);
    assert_eq!(bus.try_recv(), None);
    for now in 3..=50u64 {
        bus.tick(now);
    }
    assert_eq!(drain(&mut bus), vec![1]);
}

#[test]
fn far_delivery_times_wait_in_the_last_bucket() {
    let mut bus = Bus::<u64>::new();
    bus.send(Message::new(1, u64::MAX));
    bus.send(Message::new(2, 1 << 40));
    bus.send(Message::new(3, 3));
    for now in 0..100u64 {
        bus.tick(now);
        let out = drain(&mut bus);
        if now == 3 {
            assert_eq!(out, vec![3]);
        } else {
            assert_eq!(out, Vec::<u64>::new());
        }
    }
    bus.tick(u64::MAX - 63);
    assert_eq!(drain(&mut bus), vec![2]);
    for now in (u64::MAX - 62)..u64::MAX {
        bus.tick(now);
        assert_eq!(bus.try_recv(), None);
    }
    bus.tick(u64::MAX);
    assert_eq!(drain(&mut bus), vec![1]);
}

#[test]
fn a_message_keeps_its_parts() {
    let message = Message::new("payload", 17);
    assert_eq!(message.delivery_time(), 17);
    assert_eq!(message.into_payload(), "payload");
}

#[test]
fn payloads_need_not_be_copyable() {
    let mut bus = Bus::<String>::new();
    bus.send(Message::new(String::from("later"), 2));
    bus.send(Message::new(String::from("now"), 0));
    bus.tick(0);
    assert_eq!(bus.try_recv(), Some(String::from("now")));
    bus.tick(1);
    assert_eq!(bus.try_recv(), None);
    bus.tick(2);
    assert_eq!(bus.try_recv(), Some(String::from("later")));
}
