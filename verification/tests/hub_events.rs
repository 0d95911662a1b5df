use dreamfish::hub::Hub;
use dreamfish::ws::text_frame;

#[test]
fn hub_starts_at_version_one_with_nobody() {
    let hub: Hub<&str> = Hub::new();
    assert_eq!(hub.version(), 1);
    assert_eq!(hub.next_id(), 0);
    assert!(hub.clients().is_empty());
}

#[test]
fn connecting_pages_get_fresh_ids_and_the_hello_frame() {
    let mut hub: Hub<&str> = Hub::new();
    let (a, hello) = hub.connect("first");
    assert_eq!(a, 0);
    assert_eq!(hello, text_frame("{\"type\":\"hello\",\"version\":1}"));
    let (b, _) = hub.connect("second");
    assert_eq!(b, 1);
    let ids: Vec<u64> = hub.clients().iter().map(|c| c.0).collect();
    assert_eq!(ids, vec![0, 1]);
    assert_eq!(hub.clients()[1].1, "second");
}

#[test]
fn reload_bumps_the_version_and_names_it() {
    let mut hub: Hub<&str> = Hub::new();
    hub.connect("page");
    let frame = hub.reload();
    assert_eq!(hub.version(), 2);
    assert_eq!(frame, text_frame("{\"type\":\"reload\",\"version\":2}"));
    let frame = hub.reload();
    assert_eq!(frame, text_frame("{\"type\":\"reload\",\"version\":3}"));
    let (_, hello) = hub.connect("late");
    assert_eq!(hello, text_frame("{\"type\":\"hello\",\"version\":3}"));
}

#[test]
fn leaving_and_dead_pages_are_dropped_in_order() {
    let mut hub: Hub<&str> = Hub::new();
    for name in ["a", "b", "c", "d"] {
        hub.connect(name);
    }
    hub.remove(1);
    let names: Vec<&str> = hub.clients().iter().map(|c| c.1).collect();
    assert_eq!(names, vec!["a", "c", "d"]);
    hub.remove(7);
    assert_eq!(hub.clients().len(), 3);
    hub.drop_dead(&[0, 3, 9]);
    let names: Vec<&str> = hub.clients().iter().map(|c| c.1).collect();
    assert_eq!(names, vec!["c"]);
    assert_eq!(hub.version(), 1);
    let (e, _) = hub.connect("e");
    assert_eq!(e, 4);
}
