use crate::config::Config;
use crate::parser::error::ParseError;
use crate::parser::timesheet::{
    entries_of, entry_views, is_stable_sort_by_date, parse_entry, placeholder_entry, Entries,
    Entry, EntrySpec,
};
use vstd::prelude::*;

verus! {

/// Reads the text of a time sheet: its days, sorted by their dates, and in
/// place of no day at all the one day that stands in for an empty time
/// sheet.
pub fn load(contents: &str, config: &Config) -> (loaded: Result<Entries, ParseError>)
    ensures
        match loaded {
            Ok(entries) => entries_of(contents@, config.prefixes()) matches Ok(given) && if given.len()
                == 0 {
                entries@ == seq![placeholder_entry()]
            } else {
                is_stable_sort_by_date(entries@, given)
            },
            Err(error) => entries_of(contents@, config.prefixes()) == Err::<
                Seq<EntrySpec>,
                ParseError,
            >(error),
        },
{
    let entries = match parse_entry(contents, config) {
        Ok(entries) => entries,
        Err(error) => {
            return Err(error);
        },
    };
    if entries.entries.len() == 0 {
        let mut days: Vec<Entry> = Vec::new();
        days.push(Entry::placeholder());
        proof {
            assert(entry_views(days@) =~= seq![placeholder_entry()]);
        }
        return Ok(Entries { entries: days });
    }
    Ok(entries)
}

} // verus!
