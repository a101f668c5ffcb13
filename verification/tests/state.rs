use pttlogger::clock::{FrozenTimeFactory, TimeFactory};
use pttlogger::config::KeyName;
use pttlogger::state::{centered_rect_absolute, Day, Notification, NotificationLevel};

#[test]
fn notification_is_shown_while_it_lives() {
    let mut notification = Notification::new();
    assert!(!notification.should_display());
    notification.notify("reloaded timesheet".to_string(), 2);
    assert!(notification.should_display());
    assert_eq!(NotificationLevel::Info, notification.level);
    notification.tick();
    assert!(notification.should_display());
    notification.tick();
    assert!(!notification.should_display());
    notification.tick();
    assert_eq!(0, notification.lifetime);
    notification.error("no such file".to_string(), 4);
    assert_eq!(NotificationLevel::Error, notification.level);
    assert_eq!("no such file", notification.notification);
    assert_eq!(4, notification.lifetime);
}

#[test]
fn day_view_starts_at_the_last_day() {
    let mut day = Day::new();
    assert_eq!(4, day.select(5));
    day.handle(&KeyName::NextPage);
    assert_eq!(4, day.select(5));
    day.handle(&KeyName::PreviousPage);
    day.handle(&KeyName::PreviousPage);
    assert_eq!(2, day.select(5));
    day.handle(&KeyName::Quit);
    assert_eq!(2, day.select(5));
    assert_eq!(1, day.select(2));
    day.previous();
    day.previous();
    assert_eq!(0, day.select(2));
    day.next();
    assert_eq!(1, day.select(2));
}

#[test]
fn frozen_clock_stands_still() {
    let clock = FrozenTimeFactory::new(2022, 1, 1, 12, 1);
    assert_eq!("2022-01-01", clock.now().date.to_string());
    assert_eq!("12:01", clock.now().time.to_string());
}

#[test]
fn rectangle_stands_in_the_middle() {
    assert_eq!((18, 10, 64, 3), centered_rect_absolute(64, 3, 100, 24));
    assert_eq!((0, 0, 40, 2), centered_rect_absolute(64, 3, 40, 2));
    assert_eq!((0, 0, 64, 3), centered_rect_absolute(64, 3, 65, 4));
}
