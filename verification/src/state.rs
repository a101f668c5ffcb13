use crate::config::KeyName;
use vstd::prelude::*;

verus! {

/// How a notification is shown.
#[derive(Debug, Clone, Copy, PartialEq, Eq, Structural)]
pub enum NotificationLevel {
    Info,
    Error,
}

/// A message that is shown for a number of frames.
#[derive(Debug)]
pub struct Notification {
    pub notification: String,
    pub level: NotificationLevel,
    pub lifetime: i16,
}

impl Notification {
    /// A notification that is not shown.
    pub fn new() -> (notification: Notification)
        ensures
            notification.notification@ == Seq::<char>::empty(),
            notification.level == NotificationLevel::Info,
            notification.lifetime == 0,
    {
        Notification { notification: String::new(), level: NotificationLevel::Info, lifetime: 0 }
    }

    /// Shows a message for `lifetime` frames.
    pub fn notify(&mut self, message: String, lifetime: i16)
        ensures
            final(self).notification@ == message@,
            final(self).lifetime == lifetime,
            final(self).level == NotificationLevel::Info,
    {
        self.notification = message;
        self.lifetime = lifetime;
        self.level = NotificationLevel::Info;
    }

    /// Shows an error for `lifetime` frames.
    pub fn error(&mut self, message: String, lifetime: i16)
        ensures
            final(self).notification@ == message@,
            final(self).lifetime == lifetime,
            final(self).level == NotificationLevel::Error,
    {
        self.notification = message;
        self.lifetime = lifetime;
        self.level = NotificationLevel::Error;
    }

    /// Lets one frame pass.
    pub fn tick(&mut self)
        ensures
            final(self).lifetime == if old(self).lifetime > 0 {
                old(self).lifetime - 1
            } else {
                old(self).lifetime as int
            },
            final(self).notification == old(self).notification,
            final(self).level == old(self).level,
    {
        if self.lifetime > 0 {
            self.lifetime -= 1
        }
    }

    /// Whether the notification is still to be shown.
    pub fn should_display(&self) -> (b: bool)
        ensures
            b == (self.lifetime > 0),
    {
        self.lifetime > 0
    }
}

/// The day that the day view shows: an index into the days.
#[derive(Debug)]
pub struct Day {
    pub index: usize,
    pub initialized: bool,
}

/// The index of the day that is shown among `len` days for a wanted
/// index: the last day before the view was first shown, and never past the
/// last day.
pub open spec fn shown_index(index: usize, initialized: bool, len: usize) -> usize {
    if !initialized || index >= len {
        (len - 1) as usize
    } else {
        index
    }
}

impl Day {
    pub fn new() -> (day: Day)
        ensures
            day.index == 0,
            !day.initialized,
    {
        Day { index: 0, initialized: false }
    }

    /// Settles the index on a day that there is, among `len` days, and
    /// gives it.
    pub fn select(&mut self, len: usize) -> (index: usize)
        requires
            len > 0,
        ensures
            index == shown_index(old(self).index, old(self).initialized, len),
            final(self).index == index,
            final(self).initialized,
            index < len,
    {
        if !self.initialized {
            self.index = len;
            self.initialized = true;
        }
        if self.index >= len {
            self.index = len - 1
        }
        self.index
    }

    /// Goes on by one day; `select` holds the index back at the last day.
    pub fn next(&mut self)
        ensures
            final(self).index == if old(self).index < usize::MAX {
                old(self).index + 1
            } else {
                old(self).index as int
            },
            final(self).initialized == old(self).initialized,
    {
        if self.index < usize::MAX {
            self.index += 1
        }
    }

    /// Goes back by one day, down to the first.
    pub fn previous(&mut self)
        ensures
            final(self).index == if old(self).index > 0 {
                old(self).index - 1
            } else {
                0
            },
            final(self).initialized == old(self).initialized,
    {
        if self.index > 0 {
            self.index -= 1
        }
    }

    /// Goes back by one day for the previous page, on by one day for the next
    /// page, and stays for any other key.
    pub fn handle(&mut self, key: &KeyName)
        ensures
            final(self).initialized == old(self).initialized,
            final(self).index == match *key {
                KeyName::PreviousPage => if old(self).index > 0 {
                    old(self).index - 1
                } else {
                    0
                },
                KeyName::NextPage => if old(self).index < usize::MAX {
                    old(self).index + 1
                } else {
                    old(self).index as int
                },
                _ => old(self).index as int,
            },
    {
        match key {
            KeyName::PreviousPage => self.previous(),
            KeyName::NextPage => self.next(),
            _ => (),
        };
    }
}


/// The smaller of two numbers.
pub open spec fn smaller(a: int, b: int) -> int {
    if a < b {
        a
    } else {
        b
    }
}

/// The column or row at which a stretch of `wanted` cells starts that
/// stands in the middle of `available` cells; the first where it is longer.
pub open spec fn centered_start(wanted: int, available: int) -> int {
    if available > wanted {
        (available - wanted) / 2
    } else {
        0
    }
}

/// A rectangle of the given width and height in the middle of an area, and
/// no larger than the area: its column, its row, its width and its height.
pub fn centered_rect_absolute(width: u16, height: u16, area_width: u16, area_height: u16) -> (rect:
    (u16, u16, u16, u16))
    ensures
        rect.0 == centered_start(width as int, area_width as int),
        rect.1 == centered_start(height as int, area_height as int),
        rect.2 == smaller(width as int, area_width as int),
        rect.3 == smaller(height as int, area_height as int),
{
    let x = if area_width > width {
        (area_width - width) / 2
    } else {
        0
    };
    let y = if area_height > height {
        (area_height - height) / 2
    } else {
        0
    };
    let w = if width < area_width {
        width
    } else {
        area_width
    };
    let h = if height < area_height {
        height
    } else {
        area_height
    };
    (x, y, w, h)
}

} // verus!
