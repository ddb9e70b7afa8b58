use std::cell::RefCell;
use std::rc::Rc;
use vectar::message_bus::MessageBus;
use vectar::screens::{GameHud, TitleHud, TitleScreen};

type Log = Rc<RefCell<Vec<(String, String)>>>;

fn subscriber(log: Log) -> impl Fn(&str, &str) {
    move |topic: &str, payload: &str| {
        log.borrow_mut().push((topic.to_string(), payload.to_string()));
    }
}

#[test]
fn new_bus_has_no_subscribers() {
    let bus = MessageBus::<fn(&str, &str)>::new();
    assert!(bus.subscribers.is_empty());
}

#[test]
fn register_adds_subscribers_in_order() {
    let log: Log = Rc::new(RefCell::new(Vec::new()));
    let mut bus = MessageBus::new();
    bus.register(subscriber(log.clone()));
    bus.register(subscriber(log.clone()));
    assert_eq!(bus.subscribers.len(), 2);
}

#[test]
fn send_message_reaches_every_subscriber() {
    let log: Log = Rc::new(RefCell::new(Vec::new()));
    let mut bus = MessageBus::new();
    bus.register(subscriber(log.clone()));
    bus.register(subscriber(log.clone()));
    bus.send_message("Hello", "World");
    let seen = log.borrow().clone();
    assert_eq!(
        seen,
        vec![
            ("Hello".to_string(), "World".to_string()),
            ("Hello".to_string(), "World".to_string()),
        ]
    );
}

#[test]
fn unregister_leaves_the_bus_unchanged() {
    let log: Log = Rc::new(RefCell::new(Vec::new()));
    let mut bus = MessageBus::new();
    bus.register(subscriber(log.clone()));
    bus.unregister(subscriber(log.clone()));
    bus.send_message("ping", "pong");
    assert_eq!(bus.subscribers.len(), 1);
    assert_eq!(log.borrow().len(), 1);
}

#[test]
fn get_message_is_a_quiet_poll() {
    let bus = MessageBus::<fn(&str, &str)>::new();
    bus.get_message();
}

#[test]
fn screen_and_hud_state_constructs() {
    let _title_hud: TitleHud = TitleHud::new();
    let _game_hud: GameHud = GameHud::new();
    let _title_screen: TitleScreen = TitleScreen::new();
}
