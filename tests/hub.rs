use blokhain::hub::Subscribers;
use tokio::sync::mpsc;

fn ids<E>(s: &Subscribers<E>) -> Vec<String> {
    (0..s.len()).map(|i| s.id(i).clone()).collect()
}

#[test]
fn register_adds_and_overwrites() {
    let mut s: Subscribers<u32> = Subscribers::new();
    assert_eq!(s.len(), 0);
    s.register("A".to_string(), 1);
    s.register("B".to_string(), 2);
    assert_eq!(ids(&s), vec!["A".to_string(), "B".to_string()]);
    s.register("A".to_string(), 3);
    assert_eq!(ids(&s), vec!["A".to_string(), "B".to_string()]);
    assert_eq!(*s.endpoint(0), 3);
    assert_eq!(*s.endpoint(1), 2);
    assert_eq!(s.position(&"B".to_string()), Some(1));
    assert_eq!(s.position(&"C".to_string()), None);
}

#[test]
fn unregister_is_idempotent() {
    let mut s: Subscribers<u32> = Subscribers::new();
    s.register("A".to_string(), 1);
    s.register("B".to_string(), 2);
    s.unregister(&"A".to_string());
    assert_eq!(ids(&s), vec!["B".to_string()]);
    s.unregister(&"A".to_string());
    assert_eq!(ids(&s), vec!["B".to_string()]);
    assert_eq!(*s.endpoint(0), 2);
}

#[test]
fn retain_delivered_drops_failures_in_order() {
    let mut s: Subscribers<u32> = Subscribers::new();
    for (i, name) in ["A", "B", "C", "D"].iter().enumerate() {
        s.register(name.to_string(), i as u32);
    }
    s.retain_delivered(&vec![true, false, true, false]);
    assert_eq!(ids(&s), vec!["A".to_string(), "C".to_string()]);
    assert_eq!(*s.endpoint(1), 2);
}

#[test]
fn broadcast_reaches_every_subscriber() {
    let (tx_a, mut rx_a) = mpsc::channel::<String>(1);
    let (tx_b, mut rx_b) = mpsc::channel::<String>(1);
    let mut s = Subscribers::new();
    s.register("A".to_string(), tx_a);
    s.register("B".to_string(), tx_b);
    let m = "hello".to_string();
    let outcomes = s.deliver_all(|tx| tx.blocking_send(m.clone()).is_ok());
    assert_eq!(outcomes, vec![true, true]);
    assert_eq!(rx_a.try_recv().unwrap(), m);
    assert_eq!(rx_b.try_recv().unwrap(), m);
    assert_eq!(s.len(), 2);
}

#[test]
fn broadcast_evicts_closed_subscriber() {
    let (tx_a, mut rx_a) = mpsc::channel::<String>(1);
    let (tx_b, rx_b) = mpsc::channel::<String>(1);
    let mut s = Subscribers::new();
    s.register("A".to_string(), tx_a);
    s.register("B".to_string(), tx_b);
    drop(rx_b);
    let m = "hello".to_string();
    let outcomes = s.deliver_all(|tx| tx.blocking_send(m.clone()).is_ok());
    assert_eq!(outcomes, vec![true, false]);
    assert_eq!(rx_a.try_recv().unwrap(), m);
    assert_eq!(ids(&s), vec!["A".to_string()]);
}
