use vstd::prelude::*;

verus! {

/// A project as contracts see it.
pub ghost struct ProjectSpec {
    pub name: Seq<char>,
    pub ticket_prefix: Seq<char>,
    pub tags: Seq<Seq<char>>,
}

/// A project of the user: the words that begin with its ticket prefix are
/// its tickets.
#[derive(Debug, Default)]
pub struct Project {
    pub name: String,
    pub ticket_prefix: String,
    pub tags: Vec<String>,
}

impl View for Project {
    type V = ProjectSpec;

    open spec fn view(&self) -> ProjectSpec {
        ProjectSpec {
            name: self.name@,
            ticket_prefix: self.ticket_prefix@,
            tags: self.tags@.map_values(|tag: String| tag@),
        }
    }
}

/// The projects of the user, in the order in which their prefixes are tried.
#[derive(Debug, Default)]
pub struct Config {
    pub projects: Vec<Project>,
}

impl Config {
    /// The ticket prefixes of the projects, in order.
    pub open spec fn prefixes(&self) -> Seq<Seq<char>> {
        self.projects@.map_values(|project: Project| project.ticket_prefix@)
    }

    /// A configuration without projects.
    pub fn empty() -> (config: Config)
        ensures
            config.projects@.len() == 0,
            config.prefixes() == Seq::<Seq<char>>::empty(),
    {
        let config = Config { projects: Vec::new() };
        proof {
            assert(config.prefixes() =~= Seq::<Seq<char>>::empty());
        }
        config
    }
}

/// What a key asks for.
#[derive(Debug, Clone, Copy, PartialEq, Eq, Structural)]
pub enum KeyName {
    PreviousPage,
    NextPage,
    Unknown,
    Quit,
    Reload,
    DayView,
    WeekView,
    MonthView,
    YearView,
    ToggleFilter,
}

/// What the key of a character asks for.
pub open spec fn key_of(c: char) -> KeyName {
    if c == 'q' {
        KeyName::Quit
    } else if c == 'r' {
        KeyName::Reload
    } else if c == 'n' {
        KeyName::NextPage
    } else if c == 'p' {
        KeyName::PreviousPage
    } else if c == 'w' {
        KeyName::WeekView
    } else if c == 'm' {
        KeyName::MonthView
    } else if c == 'd' {
        KeyName::DayView
    } else if c == 'y' {
        KeyName::YearView
    } else if c == 'f' {
        KeyName::ToggleFilter
    } else {
        KeyName::Unknown
    }
}

impl KeyName {
    /// What the key of a character asks for.
    pub fn for_char(c: char) -> (name: KeyName)
        ensures
            name == key_of(c),
    {
        if c == 'q' {
            KeyName::Quit
        } else if c == 'r' {
            KeyName::Reload
        } else if c == 'n' {
            KeyName::NextPage
        } else if c == 'p' {
            KeyName::PreviousPage
        } else if c == 'w' {
            KeyName::WeekView
        } else if c == 'm' {
            KeyName::MonthView
        } else if c == 'd' {
            KeyName::DayView
        } else if c == 'y' {
            KeyName::YearView
        } else if c == 'f' {
            KeyName::ToggleFilter
        } else {
            KeyName::Unknown
        }
    }
}

} // verus!
