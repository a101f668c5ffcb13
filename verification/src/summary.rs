use crate::model::{
    all_days_valid, log_entry_views, LogDay, LogDaySpec, LogDays, LogDuration, LogEntry, LogEntrySpec,
};
use crate::parser::token::{TokenKind, TokenSpec};
use vstd::prelude::*;

verus! {

/// An entry of a summary as contracts see it.
pub ghost struct TagMetaSpec {
    pub tag: Seq<char>,
    pub kind: TokenKind,
    pub minutes: int,
    pub count: nat,
}

/// What a summary holds for one label: the number of entries with that
/// label, and their counts and minutes added up.
pub ghost struct Tally {
    pub entries: int,
    pub count: int,
    pub minutes: int,
}

impl Tally {
    /// What a summary without an entry for a label holds for it.
    pub open spec fn zero() -> Tally {
        Tally { entries: 0, count: 0, minutes: 0 }
    }

    /// The sum of both, field by field.
    pub open spec fn plus(self, other: Tally) -> Tally {
        Tally {
            entries: self.entries + other.entries,
            count: self.count + other.count,
            minutes: self.minutes + other.minutes,
        }
    }

    /// The sum of both, held in one entry where there is any.
    pub open spec fn merged(self, other: Tally) -> Tally {
        Tally {
            entries: if self.entries + other.entries > 0 {
                1
            } else {
                0
            },
            count: self.count + other.count,
            minutes: self.minutes + other.minutes,
        }
    }
}

/// What one entry holds for a label.
pub open spec fn tally_of(entry: TagMetaSpec, tag: Seq<char>) -> Tally {
    if entry.tag == tag {
        Tally { entries: 1, count: entry.count as int, minutes: entry.minutes }
    } else {
        Tally::zero()
    }
}

/// What a summary holds for a label.
pub open spec fn tally(summary: Seq<TagMetaSpec>, tag: Seq<char>) -> Tally
    decreases summary.len(),
{
    if summary.len() == 0 {
        Tally::zero()
    } else {
        tally(summary.drop_last(), tag).plus(tally_of(summary.last(), tag))
    }
}

/// Whether no label has more than one entry, and no entry negative minutes.
pub open spec fn is_tidy(summary: Seq<TagMetaSpec>) -> bool {
    &&& forall|tag: Seq<char>| (#[trigger] tally(summary, tag)).entries <= 1
    &&& no_negative_minutes(summary)
}

/// Whether the entries stand in the order of their minutes, the most first.
pub open spec fn is_sorted_by_minutes(summary: Seq<TagMetaSpec>) -> bool {
    forall|i: int, j: int|
        0 <= i < j < summary.len() ==> (#[trigger] summary[i]).minutes >= (
        #[trigger] summary[j]).minutes
}

/// With one more entry at its end a summary holds what it held, and what
/// that entry holds.
pub proof fn lemma_tally_push(summary: Seq<TagMetaSpec>, entry: TagMetaSpec, tag: Seq<char>)
    ensures
        tally(summary.push(entry), tag) == tally(summary, tag).plus(tally_of(entry, tag)),
{
    assert(summary.push(entry).drop_last() =~= summary);
}

/// A summary holds no negative number of entries or of occurrences for a
/// label; it holds nothing for a label exactly where no entry has that label.
pub proof fn lemma_tally_bounds(summary: Seq<TagMetaSpec>, tag: Seq<char>)
    ensures
        tally(summary, tag).entries >= 0,
        tally(summary, tag).count >= 0,
        tally(summary, tag).entries == 0 ==> tally(summary, tag) == Tally::zero(),
        tally(summary, tag).entries == 0 ==> forall|i: int|
            0 <= i < summary.len() ==> (#[trigger] summary[i]).tag != tag,
        forall|i: int|
            0 <= i < summary.len() && (#[trigger] summary[i]).tag == tag ==> tally(
                summary,
                tag,
            ).entries >= 1,
        (forall|i: int| 0 <= i < summary.len() ==> (#[trigger] summary[i]).tag != tag) ==> tally(
            summary,
            tag,
        ) == Tally::zero(),
    decreases summary.len(),
{
    if summary.len() > 0 {
        lemma_tally_bounds(summary.drop_last(), tag);
        if forall|i: int| 0 <= i < summary.len() ==> (#[trigger] summary[i]).tag != tag {
            assert forall|i: int| 0 <= i < summary.drop_last().len() implies (
            #[trigger] summary.drop_last()[i]).tag != tag by {
                assert(summary.drop_last()[i] == summary[i]);
            }
            assert(summary.last() == summary[summary.len() - 1]);
        }
        assert forall|i: int| 0 <= i < summary.len() && (#[trigger] summary[i]).tag == tag implies tally(
            summary,
            tag,
        ).entries >= 1 by {
            if i < summary.len() - 1 {
                assert(summary.drop_last()[i] == summary[i]);
            }
        }
        if tally(summary, tag).entries == 0 {
            assert forall|i: int| 0 <= i < summary.len() implies (#[trigger] summary[i]).tag
                != tag by {
                if i < summary.len() - 1 {
                    assert(summary.drop_last()[i] == summary[i]);
                }
            }
        }
    }
}

/// With one more entry at any place a summary holds what it held, and what
/// that entry holds.
pub proof fn lemma_tally_insert(
    summary: Seq<TagMetaSpec>,
    at: int,
    entry: TagMetaSpec,
    tag: Seq<char>,
)
    requires
        0 <= at <= summary.len(),
    ensures
        tally(summary.insert(at, entry), tag) == tally(summary, tag).plus(tally_of(entry, tag)),
    decreases summary.len(),
{
    if at == summary.len() {
        assert(summary.insert(at, entry) =~= summary.push(entry));
        lemma_tally_push(summary, entry, tag);
    } else {
        let grown = summary.insert(at, entry);
        assert(grown.drop_last() =~= summary.drop_last().insert(at, entry));
        assert(grown.last() == summary.last());
        lemma_tally_insert(summary.drop_last(), at, entry, tag);
    }
}

/// With one entry put in the place of another a summary holds what it held,
/// less what the old entry held, and what the new one holds.
pub proof fn lemma_tally_update(
    summary: Seq<TagMetaSpec>,
    at: int,
    entry: TagMetaSpec,
    tag: Seq<char>,
)
    requires
        0 <= at < summary.len(),
    ensures
        tally(summary.update(at, entry), tag).plus(tally_of(summary[at], tag)) == tally(
            summary,
            tag,
        ).plus(tally_of(entry, tag)),
    decreases summary.len(),
{
    let changed = summary.update(at, entry);
    if at == summary.len() - 1 {
        assert(changed.drop_last() =~= summary.drop_last());
    } else {
        assert(changed.drop_last() =~= summary.drop_last().update(at, entry));
        assert(changed.last() == summary.last());
        lemma_tally_update(summary.drop_last(), at, entry, tag);
    }
}

/// Where a label has one entry, the summary holds for the label what that
/// entry holds.
pub proof fn lemma_tally_single(summary: Seq<TagMetaSpec>, at: int)
    requires
        0 <= at < summary.len(),
        tally(summary, summary[at].tag).entries <= 1,
    ensures
        tally(summary, summary[at].tag) == tally_of(summary[at], summary[at].tag),
    decreases summary.len(),
{
    let tag = summary[at].tag;
    lemma_tally_bounds(summary.drop_last(), tag);
    if at == summary.len() - 1 {
    } else {
        assert(summary.drop_last()[at] == summary[at]);
        lemma_tally_single(summary.drop_last(), at);
    }
}

/// A summary holds for a run of entries what its parts hold.
pub proof fn lemma_tally_add(a: Seq<TagMetaSpec>, b: Seq<TagMetaSpec>, tag: Seq<char>)
    ensures
        tally(a + b, tag) == tally(a, tag).plus(tally(b, tag)),
    decreases b.len(),
{
    if b.len() == 0 {
        assert(a + b =~= a);
    } else {
        assert((a + b).drop_last() =~= a + b.drop_last());
        assert((a + b).last() == b.last());
        lemma_tally_add(a, b.drop_last(), tag);
    }
}

/// An entry of a summary: a label, and how often and for how long it
/// occurred.
#[derive(Debug)]
pub struct TagMeta {
    pub tag: String,
    pub kind: TokenKind,
    pub duration: LogDuration,
    pub count: usize,
}

impl View for TagMeta {
    type V = TagMetaSpec;

    open spec fn view(&self) -> TagMetaSpec {
        TagMetaSpec {
            tag: self.tag@,
            kind: self.kind,
            minutes: self.duration@,
            count: self.count as nat,
        }
    }
}

impl Clone for TagMeta {
    fn clone(&self) -> (meta: TagMeta)
        ensures
            meta@ == self@,
    {
        TagMeta {
            tag: self.tag.clone(),
            kind: self.kind,
            duration: self.duration,
            count: self.count,
        }
    }
}

/// The entries of a sequence as contracts see them.
pub open spec fn tag_meta_views(metas: Seq<TagMeta>) -> Seq<TagMetaSpec> {
    metas.map_values(|meta: TagMeta| meta@)
}

/// Adds `count` occurrences and `minutes` minutes of a label to a tidy
/// summary: to the entry of the label where there is one, else as a new
/// last entry. Gives `false`, and leaves the summary as it is, where a sum
/// is more than its number can hold.
pub(crate) fn record(
    metas: &mut Vec<TagMeta>,
    tag: &String,
    kind: TokenKind,
    minutes: i64,
    count: usize,
) -> (ok: bool)
    requires
        is_tidy(tag_meta_views(old(metas)@)),
        minutes >= 0,
    ensures
        ok ==> is_tidy(tag_meta_views(final(metas)@)),
        ok ==> forall|other: Seq<char>|
            #[trigger] tally(tag_meta_views(final(metas)@), other) == if other == tag@ {
                tally(tag_meta_views(old(metas)@), other).merged(
                    Tally { entries: 1, count: count as int, minutes: minutes as int },
                )
            } else {
                tally(tag_meta_views(old(metas)@), other)
            },
        ok ==> old(metas)@.len() <= final(metas)@.len() <= old(metas)@.len() + 1,
        ok ==> forall|i: int|
            0 <= i < old(metas)@.len() ==> (#[trigger] final(metas)@[i])@.tag == old(metas)@[i]@.tag
                && final(metas)@[i]@.kind == old(metas)@[i]@.kind,
        ok && final(metas)@.len() > old(metas)@.len() ==> final(metas)@.last()@.tag == tag@
            && final(metas)@.last()@.kind == kind,
        !ok ==> final(metas)@ == old(metas)@,
        !ok ==> tally(tag_meta_views(old(metas)@), tag@).count + count > usize::MAX || tally(
            tag_meta_views(old(metas)@),
            tag@,
        ).minutes + minutes > i64::MAX,
{
    let ghost before = tag_meta_views(metas@);
    let mut at: usize = 0;
    while at < metas.len() && !(metas[at].tag == *tag)
        invariant
            at <= metas@.len(),
            metas@ == old(metas)@,
            before == tag_meta_views(metas@),
            forall|i: int| 0 <= i < at ==> (#[trigger] before[i]).tag != tag@,
        decreases metas@.len() - at,
    {
        at += 1;
    }
    if at < metas.len() {
        let held = &metas[at];
        proof {
            assert(before[at as int] == held@);
            lemma_tally_single(before, at as int);
        }
        let held_minutes = held.duration.num_minutes();
        if count > usize::MAX - held.count || minutes > i64::MAX - held_minutes {
            return false;
        }
        let entry = TagMeta {
            tag: held.tag.clone(),
            kind: held.kind,
            duration: LogDuration::from_minutes(held_minutes + minutes),
            count: held.count + count,
        };
        let ghost changed = entry@;
        metas.set(at, entry);
        proof {
            let after = tag_meta_views(metas@);
            assert(after =~= before.update(at as int, changed));
            assert forall|other: Seq<char>| #[trigger]
                tally(after, other) == if other == tag@ {
                    tally(before, other).merged(
                        Tally { entries: 1, count: count as int, minutes: minutes as int },
                    )
                } else {
                    tally(before, other)
                } by {
                lemma_tally_update(before, at as int, changed, other);
            }
            assert forall|i: int| 0 <= i < after.len() implies (#[trigger] after[i]).minutes
                >= 0 by {
                if i != at {
                    assert(after[i] == before[i]);
                }
            }
        }
        true
    } else {
        let entry = TagMeta {
            tag: tag.clone(),
            kind,
            duration: LogDuration::from_minutes(minutes),
            count,
        };
        let ghost added = entry@;
        metas.push(entry);
        proof {
            let after = tag_meta_views(metas@);
            assert(after =~= before.push(added));
            lemma_tally_bounds(before, tag@);
            assert forall|other: Seq<char>| #[trigger]
                tally(after, other) == if other == tag@ {
                    tally(before, other).merged(
                        Tally { entries: 1, count: count as int, minutes: minutes as int },
                    )
                } else {
                    tally(before, other)
                } by {
                lemma_tally_push(before, added, other);
            }
            assert forall|i: int| 0 <= i < after.len() implies (#[trigger] after[i]).minutes
                >= 0 by {
                if i < before.len() {
                    assert(after[i] == before[i]);
                }
            }
        }
        true
    }
}

/// The entries in the order of their minutes, the most first.
pub(crate) fn sorted_by_minutes(metas: Vec<TagMeta>) -> (sorted: Vec<TagMeta>)
    ensures
        sorted@.len() == metas@.len(),
        is_sorted_by_minutes(tag_meta_views(sorted@)),
        forall|tag: Seq<char>| #[trigger]
            tally(tag_meta_views(sorted@), tag) == tally(tag_meta_views(metas@), tag),
        forall|i: int|
            0 <= i < sorted@.len() ==> tag_meta_views(metas@).contains(
                #[trigger] tag_meta_views(sorted@)[i],
            ),
{
    let ghost given = tag_meta_views(metas@);
    let mut rest = metas;
    let mut sorted: Vec<TagMeta> = Vec::new();
    proof {
        assert(given.take(given.len() as int) =~= given);
    }
    while rest.len() > 0
        invariant
            rest@.len() <= given.len(),
            tag_meta_views(rest@) == given.take(rest@.len() as int),
            sorted@.len() + rest@.len() == given.len(),
            is_sorted_by_minutes(tag_meta_views(sorted@)),
            forall|tag: Seq<char>|
                (#[trigger] tally(tag_meta_views(sorted@), tag)).plus(
                    tally(tag_meta_views(rest@), tag),
                ) == tally(given, tag),
            forall|i: int|
                0 <= i < sorted@.len() ==> given.contains(#[trigger] tag_meta_views(sorted@)[i]),
        decreases rest@.len(),
    {
        let ghost rest_before = tag_meta_views(rest@);
        let ghost sorted_before = tag_meta_views(sorted@);
        let entry = rest.pop().unwrap();
        let ghost moved = entry@;
        proof {
            assert(moved == given[rest@.len() as int]);
            assert(tag_meta_views(rest@) =~= rest_before.drop_last());
            assert(tag_meta_views(rest@) =~= given.take(rest@.len() as int));
            assert(rest_before.last() == moved);
        }
        let minutes = entry.duration.num_minutes();
        let mut at: usize = 0;
        while at < sorted.len() && sorted[at].duration.num_minutes() >= minutes
            invariant
                at <= sorted@.len(),
                sorted_before == tag_meta_views(sorted@),
                forall|i: int| 0 <= i < at ==> (#[trigger] sorted_before[i]).minutes >= minutes,
            decreases sorted@.len() - at,
        {
            at += 1;
        }
        sorted.insert(at, entry);
        proof {
            let sorted_after = tag_meta_views(sorted@);
            assert(sorted_after =~= sorted_before.insert(at as int, moved));
            assert forall|tag: Seq<char>|
                (#[trigger] tally(sorted_after, tag)).plus(tally(tag_meta_views(rest@), tag))
                    == tally(given, tag) by {
                lemma_tally_insert(sorted_before, at as int, moved, tag);
                assert(tally(sorted_before, tag).plus(tally(rest_before, tag)) == tally(
                    given,
                    tag,
                ));
            }
            assert forall|i: int, j: int| 0 <= i < j < sorted_after.len() implies (
            #[trigger] sorted_after[i]).minutes >= (#[trigger] sorted_after[j]).minutes by {
                if at < sorted_before.len() {
                    assert(sorted_before[at as int].minutes < minutes);
                }
                if i < at && j > at {
                    assert(sorted_after[i] == sorted_before[i]);
                    assert(sorted_after[j] == sorted_before[j - 1]);
                } else if i < at && j < at {
                    assert(sorted_after[i] == sorted_before[i]);
                    assert(sorted_after[j] == sorted_before[j]);
                } else if i > at {
                    assert(sorted_after[i] == sorted_before[i - 1]);
                    assert(sorted_after[j] == sorted_before[j - 1]);
                } else if i == at {
                    assert(sorted_after[j] == sorted_before[j - 1]);
                    if j - 1 > at {
                        assert(sorted_before[at as int].minutes >= sorted_before[j - 1].minutes);
                    }
                }
            }
            assert forall|i: int| 0 <= i < sorted_after.len() implies given.contains(
                #[trigger] sorted_after[i],
            ) by {
                if i < at {
                    assert(sorted_after[i] == sorted_before[i]);
                } else if i > at {
                    assert(sorted_after[i] == sorted_before[i - 1]);
                }
            }
        }
    }
    proof {
        assert(tag_meta_views(rest@) =~= Seq::<TagMetaSpec>::empty());
        assert forall|tag: Seq<char>| #[trigger]
            tally(tag_meta_views(sorted@), tag) == tally(given, tag) by {
            assert(tally(tag_meta_views(sorted@), tag).plus(tally(tag_meta_views(rest@), tag))
                == tally(given, tag));
        }
    }
    sorted
}


/// Whether a token is of a kind and has a text.
pub open spec fn is_mention(token: TokenSpec, kind: TokenKind, tag: Seq<char>) -> bool {
    token.kind == kind && token.text == tag
}

/// How often a label of a kind stands among the tokens, and the minutes
/// that this makes where each time counts for `minutes`.
pub open spec fn mentions(tokens: Seq<TokenSpec>, kind: TokenKind, tag: Seq<char>, minutes: int) -> Tally
    decreases tokens.len(),
{
    if tokens.len() == 0 {
        Tally::zero()
    } else {
        mentions(tokens.drop_last(), kind, tag, minutes).plus(
            if is_mention(tokens.last(), kind, tag) {
                Tally { entries: 1, count: 1, minutes }
            } else {
                Tally::zero()
            },
        )
    }
}

/// How often a label of a kind stands in the lines, and the minutes of the
/// lines in which it stands, a line counted once for each time.
pub open spec fn occurrences(logs: Seq<LogEntrySpec>, kind: TokenKind, tag: Seq<char>) -> Tally
    decreases logs.len(),
{
    if logs.len() == 0 {
        Tally::zero()
    } else {
        occurrences(logs.drop_last(), kind, tag).plus(
            mentions(logs.last().description, kind, tag, logs.last().time_range.minutes()),
        )
    }
}

/// What a summary of the lines holds for a label: one entry where the label
/// occurs, with the number of times and the minutes.
pub open spec fn expected_tally(logs: Seq<LogEntrySpec>, kind: TokenKind, tag: Seq<char>) -> Tally {
    Tally::zero().merged(occurrences(logs, kind, tag))
}

/// The lines of all days, in order.
pub open spec fn all_logs(days: Seq<LogDaySpec>) -> Seq<LogEntrySpec>
    decreases days.len(),
{
    if days.len() == 0 {
        Seq::empty()
    } else {
        all_logs(days.drop_last()) + days.last().logs
    }
}

/// Whether a summary is the summary of the lines for a kind of token: for
/// each label of that kind that occurs it has one entry, which holds how
/// often the label occurs and the minutes of its lines, and no other entry;
/// the entries stand in the order of their minutes, the most first.
pub open spec fn summarises(summary: Seq<TagMetaSpec>, logs: Seq<LogEntrySpec>, kind: TokenKind) -> bool {
    &&& forall|tag: Seq<char>| #[trigger] tally(summary, tag) == expected_tally(logs, kind, tag)
    &&& forall|i: int| 0 <= i < summary.len() ==> (#[trigger] summary[i]).kind == kind
    &&& no_negative_minutes(summary)
    &&& is_sorted_by_minutes(summary)
}

/// Whether no entry has negative minutes.
pub open spec fn no_negative_minutes(summary: Seq<TagMetaSpec>) -> bool {
    forall|i: int| 0 <= i < summary.len() ==> (#[trigger] summary[i]).minutes >= 0
}

/// Whether the summary has an entry of this label and this kind.
pub open spec fn has_entry(summary: Seq<TagMetaSpec>, tag: Seq<char>, kind: TokenKind) -> bool {
    exists|j: int|
        0 <= j < summary.len() && (#[trigger] summary[j]).tag == tag && summary[j].kind == kind
}

/// Whether each entry has the label and the kind of an entry of `source`.
pub open spec fn is_drawn_from(summary: Seq<TagMetaSpec>, source: Seq<TagMetaSpec>) -> bool {
    forall|i: int|
        0 <= i < summary.len() ==> has_entry(source, (#[trigger] summary[i]).tag, summary[i].kind)
}

/// Whether a summary holds two others together: for each label one entry
/// with the counts and the minutes of both added up, of the kind of an entry
/// for that label in one of them; the entries stand in the order of their
/// minutes, the most first.
pub open spec fn combines(
    summary: Seq<TagMetaSpec>,
    first: Seq<TagMetaSpec>,
    second: Seq<TagMetaSpec>,
) -> bool {
    &&& forall|tag: Seq<char>| #[trigger]
        tally(summary, tag) == Tally::zero().merged(tally(first, tag).plus(tally(second, tag)))
    &&& is_drawn_from(summary, first + second)
    &&& no_negative_minutes(summary)
    &&& is_sorted_by_minutes(summary)
}

/// What stands among tokens is no less than what stands among any number of
/// the first of them, and not negative; the entries counted are as many as
/// the occurrences.
pub proof fn lemma_mentions_bounds(
    tokens: Seq<TokenSpec>,
    kind: TokenKind,
    tag: Seq<char>,
    minutes: int,
    k: int,
)
    requires
        0 <= k <= tokens.len(),
        minutes >= 0,
    ensures
        0 <= mentions(tokens.take(k), kind, tag, minutes).count <= mentions(
            tokens,
            kind,
            tag,
            minutes,
        ).count,
        0 <= mentions(tokens.take(k), kind, tag, minutes).minutes <= mentions(
            tokens,
            kind,
            tag,
            minutes,
        ).minutes,
        mentions(tokens, kind, tag, minutes).entries == mentions(tokens, kind, tag, minutes).count,
    decreases tokens.len(),
{
    if tokens.len() == 0 {
        assert(tokens.take(k) =~= tokens);
    } else if k == tokens.len() {
        assert(tokens.take(k) =~= tokens);
        lemma_mentions_bounds(tokens.drop_last(), kind, tag, minutes, k - 1);
    } else {
        lemma_mentions_bounds(tokens.drop_last(), kind, tag, minutes, k);
        assert(tokens.drop_last().take(k) =~= tokens.take(k));
    }
}

/// What stands in valid lines is no less than what stands in any number of
/// the first of them, and not negative.
pub proof fn lemma_occurrences_bounds(
    logs: Seq<LogEntrySpec>,
    kind: TokenKind,
    tag: Seq<char>,
    k: int,
)
    requires
        0 <= k <= logs.len(),
        forall|i: int| 0 <= i < logs.len() ==> (#[trigger] logs[i]).is_valid(),
    ensures
        0 <= occurrences(logs.take(k), kind, tag).count <= occurrences(logs, kind, tag).count,
        0 <= occurrences(logs.take(k), kind, tag).minutes <= occurrences(logs, kind, tag).minutes,
        occurrences(logs, kind, tag).entries == occurrences(logs, kind, tag).count,
    decreases logs.len(),
{
    if logs.len() == 0 {
        assert(logs.take(k) =~= logs);
    } else {
        let last = logs.last();
        assert(last.is_valid());
        lemma_mentions_bounds(
            last.description,
            kind,
            tag,
            last.time_range.minutes(),
            last.description.len() as int,
        );
        if k == logs.len() {
            assert(logs.take(k) =~= logs);
            lemma_occurrences_bounds(logs.drop_last(), kind, tag, k - 1);
        } else {
            lemma_occurrences_bounds(logs.drop_last(), kind, tag, k);
            assert(logs.drop_last().take(k) =~= logs.take(k));
        }
    }
}

/// What stands in two runs of lines is what stands in the one and in the
/// other.
pub proof fn lemma_occurrences_add(
    a: Seq<LogEntrySpec>,
    b: Seq<LogEntrySpec>,
    kind: TokenKind,
    tag: Seq<char>,
)
    ensures
        occurrences(a + b, kind, tag) == occurrences(a, kind, tag).plus(occurrences(b, kind, tag)),
    decreases b.len(),
{
    if b.len() == 0 {
        assert(a + b =~= a);
    } else {
        assert((a + b).drop_last() =~= a + b.drop_last());
        assert((a + b).last() == b.last());
        lemma_occurrences_add(a, b.drop_last(), kind, tag);
    }
}

/// The lines of two runs of days are the lines of the one and then those of
/// the other.
pub proof fn lemma_all_logs_add(a: Seq<LogDaySpec>, b: Seq<LogDaySpec>)
    ensures
        all_logs(a + b) == all_logs(a) + all_logs(b),
    decreases b.len(),
{
    if b.len() == 0 {
        assert(a + b =~= a);
        assert(all_logs(a) + all_logs(b) =~= all_logs(a));
    } else {
        assert((a + b).drop_last() =~= a + b.drop_last());
        assert((a + b).last() == b.last());
        lemma_all_logs_add(a, b.drop_last());
        assert(all_logs(a + b) =~= all_logs(a) + all_logs(b));
    }
}

/// The lines of valid days are valid.
pub proof fn lemma_all_logs_valid(days: Seq<LogDaySpec>)
    requires
        all_days_valid(days),
    ensures
        forall|i: int| 0 <= i < all_logs(days).len() ==> (#[trigger] all_logs(days)[i]).is_valid(),
    decreases days.len(),
{
    if days.len() > 0 {
        assert(days.last().is_valid());
        assert forall|i: int| 0 <= i < days.drop_last().len() implies (
        #[trigger] days.drop_last()[i]).is_valid() by {
            assert(days.drop_last()[i] == days[i]);
        }
        lemma_all_logs_valid(days.drop_last());
        let front = all_logs(days.drop_last());
        assert forall|i: int| 0 <= i < all_logs(days).len() implies (#[trigger] all_logs(
            days,
        )[i]).is_valid() by {
            if i < front.len() {
                assert(all_logs(days)[i] == front[i]);
            } else {
                assert(all_logs(days)[i] == days.last().logs[i - front.len()]);
            }
        }
    }
}

/// Two entries with one label are two entries that a summary holds for
/// that label.
pub proof fn lemma_tally_two(summary: Seq<TagMetaSpec>, first: int, second: int)
    requires
        0 <= first < second < summary.len(),
        summary[first].tag == summary[second].tag,
    ensures
        tally(summary, summary[first].tag).entries >= 2,
    decreases summary.len(),
{
    let tag = summary[first].tag;
    if second == summary.len() - 1 {
        lemma_tally_bounds(summary.drop_last(), tag);
        assert(summary.drop_last()[first] == summary[first]);
    } else {
        assert(summary.drop_last()[first] == summary[first]);
        assert(summary.drop_last()[second] == summary[second]);
        lemma_tally_two(summary.drop_last(), first, second);
        lemma_tally_bounds(seq![summary.last()], tag);
    }
}

/// In the summary of lines no two entries have one label; each entry holds
/// how often its label occurs in the lines, which is at least once, and
/// the minutes of the lines in which it occurs; and each label that occurs
/// has an entry.
pub proof fn lemma_summary_entries(
    summary: Seq<TagMetaSpec>,
    logs: Seq<LogEntrySpec>,
    kind: TokenKind,
)
    requires
        summarises(summary, logs, kind),
        forall|i: int| 0 <= i < logs.len() ==> (#[trigger] logs[i]).is_valid(),
    ensures
        forall|i: int, j: int|
            0 <= i < j < summary.len() ==> (#[trigger] summary[i]).tag != (
            #[trigger] summary[j]).tag,
        forall|i: int|
            0 <= i < summary.len() ==> (#[trigger] summary[i]).count == occurrences(
                logs,
                kind,
                summary[i].tag,
            ).count && summary[i].minutes == occurrences(logs, kind, summary[i].tag).minutes
                && summary[i].count >= 1,
        forall|tag: Seq<char>|
            (#[trigger] occurrences(logs, kind, tag)).count >= 1 ==> exists|i: int|
                0 <= i < summary.len() && (#[trigger] summary[i]).tag == tag,
{
    assert forall|i: int, j: int| 0 <= i < j < summary.len() implies (#[trigger] summary[i]).tag
        != (#[trigger] summary[j]).tag by {
        if summary[i].tag == summary[j].tag {
            lemma_tally_two(summary, i, j);
            assert(tally(summary, summary[i].tag) == expected_tally(logs, kind, summary[i].tag));
        }
    }
    assert forall|i: int| 0 <= i < summary.len() implies (#[trigger] summary[i]).count
        == occurrences(logs, kind, summary[i].tag).count && summary[i].minutes == occurrences(
        logs,
        kind,
        summary[i].tag,
    ).minutes && summary[i].count >= 1 by {
        let tag = summary[i].tag;
        assert(tally(summary, tag) == expected_tally(logs, kind, tag));
        lemma_tally_single(summary, i);
        lemma_occurrences_bounds(logs, kind, tag, 0);
    }
    assert forall|tag: Seq<char>| (#[trigger] occurrences(logs, kind, tag)).count
        >= 1 implies exists|i: int|
        0 <= i < summary.len() && (#[trigger] summary[i]).tag == tag by {
        assert(tally(summary, tag) == expected_tally(logs, kind, tag));
        lemma_tally_bounds(summary, tag);
    }
}

/// Combining the summaries of two runs of days gives the summary of both
/// runs, the one after the other.
pub proof fn lemma_combined_summaries(
    first_days: Seq<LogDaySpec>,
    second_days: Seq<LogDaySpec>,
    kind: TokenKind,
    first: Seq<TagMetaSpec>,
    second: Seq<TagMetaSpec>,
    combined: Seq<TagMetaSpec>,
)
    requires
        all_days_valid(first_days),
        all_days_valid(second_days),
        summarises(first, all_logs(first_days), kind),
        summarises(second, all_logs(second_days), kind),
        combines(combined, first, second),
    ensures
        summarises(combined, all_logs(first_days + second_days), kind),
{
    lemma_all_logs_add(first_days, second_days);
    lemma_all_logs_valid(first_days);
    lemma_all_logs_valid(second_days);
    let a = all_logs(first_days);
    let b = all_logs(second_days);
    assert forall|tag: Seq<char>| #[trigger]
        tally(combined, tag) == expected_tally(a + b, kind, tag) by {
        lemma_occurrences_add(a, b, kind, tag);
        lemma_occurrences_bounds(a, kind, tag, 0);
        lemma_occurrences_bounds(b, kind, tag, 0);
        assert(tally(first, tag) == expected_tally(a, kind, tag));
        assert(tally(second, tag) == expected_tally(b, kind, tag));
    }
    assert forall|i: int| 0 <= i < combined.len() implies (#[trigger] combined[i]).kind
        == kind by {
        assert(has_entry(first + second, combined[i].tag, combined[i].kind));
        let j = choose|j: int|
            0 <= j < (first + second).len() && (#[trigger] (first + second)[j]).tag
                == combined[i].tag && (first + second)[j].kind == combined[i].kind;
        if j < first.len() {
            assert((first + second)[j] == first[j]);
        } else {
            assert((first + second)[j] == second[j - first.len()]);
        }
    }
}

/// Adds to a tidy summary what stands in the lines for a kind of token.
/// Gives `false` where a sum is more than its number can hold.
fn tally_logs(metas: &mut Vec<TagMeta>, logs: &Vec<LogEntry>, kind: TokenKind) -> (ok: bool)
    requires
        is_tidy(tag_meta_views(old(metas)@)),
        forall|i: int| 0 <= i < logs@.len() ==> (#[trigger] log_entry_views(logs@)[i]).is_valid(),
    ensures
        ok ==> is_tidy(tag_meta_views(final(metas)@)),
        ok ==> forall|tag: Seq<char>| #[trigger]
            tally(tag_meta_views(final(metas)@), tag) == tally(
                tag_meta_views(old(metas)@),
                tag,
            ).merged(occurrences(log_entry_views(logs@), kind, tag)),
        ok ==> forall|i: int|
            0 <= i < final(metas)@.len() ==> (#[trigger] final(metas)@[i])@.kind == kind || (i < old(
                metas,
            )@.len() && final(metas)@[i]@.kind == old(metas)@[i]@.kind),
        !ok ==> exists|tag: Seq<char>|
            tally(tag_meta_views(old(metas)@), tag).count + (#[trigger] occurrences(
                log_entry_views(logs@),
                kind,
                tag,
            )).count > usize::MAX || tally(tag_meta_views(old(metas)@), tag).minutes + occurrences(
                log_entry_views(logs@),
                kind,
                tag,
            ).minutes > i64::MAX,
{
    let ghost given = tag_meta_views(metas@);
    let ghost lines = log_entry_views(logs@);
    let mut i: usize = 0;
    proof {
        assert(lines.take(0) =~= Seq::<LogEntrySpec>::empty());
        assert forall|tag: Seq<char>| #[trigger]
            tally(given, tag) == tally(given, tag).merged(
                occurrences(lines.take(0), kind, tag),
            ) by {
            lemma_tally_bounds(given, tag);
        }
    }
    while i < logs.len()
        invariant
            i <= logs@.len(),
            lines == log_entry_views(logs@),
            given == tag_meta_views(old(metas)@),
            is_tidy(given),
            forall|k: int| 0 <= k < lines.len() ==> (#[trigger] lines[k]).is_valid(),
            is_tidy(tag_meta_views(metas@)),
            old(metas)@.len() <= metas@.len(),
            forall|tag: Seq<char>| #[trigger]
                tally(tag_meta_views(metas@), tag) == tally(given, tag).merged(
                    occurrences(lines.take(i as int), kind, tag),
                ),
            forall|k: int|
                0 <= k < metas@.len() ==> (#[trigger] metas@[k])@.kind == kind || (k < old(
                    metas,
                )@.len() && metas@[k]@.kind == old(metas)@[k]@.kind),
        decreases logs@.len() - i,
    {
        let log = &logs[i];
        let minutes = log.time_range().duration().num_minutes();
        let tokens = log.description().to_vec();
        let ghost line = lines[i as int];
        let ghost words = line.description;
        proof {
            assert(line == log@);
            assert(line.is_valid());
            assert(lines.take(i + 1).drop_last() =~= lines.take(i as int));
            assert(lines.take(i + 1).last() == line);
            assert(words.take(0) =~= Seq::<TokenSpec>::empty());
        }
        let mut j: usize = 0;
        while j < tokens.len()
            invariant
                j <= tokens@.len(),
                i < logs@.len(),
                lines == log_entry_views(logs@),
                line == lines[i as int],
                words == line.description,
                words == crate::parser::timesheet::token_views(tokens@),
                minutes == line.time_range.minutes(),
                minutes >= 0,
                given == tag_meta_views(old(metas)@),
                is_tidy(given),
                forall|k: int| 0 <= k < lines.len() ==> (#[trigger] lines[k]).is_valid(),
                is_tidy(tag_meta_views(metas@)),
                old(metas)@.len() <= metas@.len(),
                forall|tag: Seq<char>| #[trigger]
                    tally(tag_meta_views(metas@), tag) == tally(given, tag).merged(
                        occurrences(lines.take(i as int), kind, tag).plus(
                            mentions(words.take(j as int), kind, tag, minutes as int),
                        ),
                    ),
                forall|k: int|
                    0 <= k < metas@.len() ==> (#[trigger] metas@[k])@.kind == kind || (k < old(
                        metas,
                    )@.len() && metas@[k]@.kind == old(metas)@[k]@.kind),
            decreases tokens@.len() - j,
        {
            let token = &tokens[j];
            let ghost held = tag_meta_views(metas@);
            let ghost kinds = metas@;
            proof {
                assert(words[j as int] == token@);
                assert(words.take(j + 1).drop_last() =~= words.take(j as int));
                assert(words.take(j + 1).last() == token@);
            }
            if token.kind == kind {
                let ok = record(metas, &token.text, kind, minutes, 1);
                proof {
                    let tag = token@.text;
                    lemma_tally_bounds(given, tag);
                    lemma_occurrences_bounds(lines, kind, tag, i as int);
                    lemma_occurrences_bounds(lines, kind, tag, i + 1);
                    lemma_mentions_bounds(words, kind, tag, minutes as int, j as int);
                    lemma_mentions_bounds(words, kind, tag, minutes as int, j + 1);
                    assert(tally(held, tag) == tally(given, tag).merged(
                        occurrences(lines.take(i as int), kind, tag).plus(
                            mentions(words.take(j as int), kind, tag, minutes as int),
                        ),
                    ));
                }
                if !ok {
                    proof {
                        let tag = token@.text;
                        assert(lines.take(i + 1).drop_last() =~= lines.take(i as int));
                        assert(lines.take(i + 1).last() == line);
                        assert(is_mention(token@, kind, tag));
                        assert(tally(given, tag).count + occurrences(lines, kind, tag).count
                            > usize::MAX || tally(given, tag).minutes + occurrences(
                            lines,
                            kind,
                            tag,
                        ).minutes > i64::MAX);
                    }
                    return false;
                }
                proof {
                    assert forall|tag: Seq<char>| #[trigger]
                        tally(tag_meta_views(metas@), tag) == tally(given, tag).merged(
                            occurrences(lines.take(i as int), kind, tag).plus(
                                mentions(words.take(j + 1), kind, tag, minutes as int),
                            ),
                        ) by {
                        lemma_tally_bounds(given, tag);
                        lemma_occurrences_bounds(lines.take(i as int), kind, tag, 0);
                        lemma_mentions_bounds(words.take(j as int), kind, tag, minutes as int, 0);
                        assert(tally(held, tag) == tally(given, tag).merged(
                            occurrences(lines.take(i as int), kind, tag).plus(
                                mentions(words.take(j as int), kind, tag, minutes as int),
                            ),
                        ));
                    }
                    assert forall|k: int| 0 <= k < metas@.len() implies (#[trigger] metas@[k])@.kind
                        == kind || (k < old(metas)@.len() && metas@[k]@.kind == old(
                        metas,
                    )@[k]@.kind) by {
                        if k < kinds.len() {
                            assert(metas@[k]@.kind == kinds[k]@.kind);
                        }
                    }
                }
            }
            j += 1;
        }
        proof {
            assert(words.take(j as int) =~= words);
        }
        i += 1;
    }
    proof {
        assert(lines.take(i as int) =~= lines);
    }
    true
}


/// The minutes of all entries of a summary together.
pub open spec fn summary_minutes(summary: Seq<TagMetaSpec>) -> int
    decreases summary.len(),
{
    if summary.len() == 0 {
        0
    } else {
        summary_minutes(summary.drop_last()) + summary.last().minutes
    }
}

/// A summary: its entries.
#[derive(Debug)]
pub struct TagMetas {
    pub tag_metas: Vec<TagMeta>,
}

impl View for TagMetas {
    type V = Seq<TagMetaSpec>;

    open spec fn view(&self) -> Seq<TagMetaSpec> {
        tag_meta_views(self.tag_metas@)
    }
}

impl TagMetas {
    /// The entries, in order.
    pub fn iter(&self) -> (entries: &Vec<TagMeta>)
        ensures
            tag_meta_views(entries@) == self@,
    {
        &self.tag_metas
    }

    pub fn len(&self) -> (len: usize)
        ensures
            len == self@.len(),
    {
        self.tag_metas.len()
    }

    /// The minutes of all entries together; `None` where a sum of the
    /// first entries is less or more than a duration can hold.
    pub fn duration(&self) -> (total: Option<LogDuration>)
        ensures
            match total {
                Some(duration) => duration@ == summary_minutes(self@),
                None => exists|k: int|
                    0 <= k <= self@.len() && !(i64::MIN <= #[trigger] summary_minutes(
                        self@.take(k),
                    ) <= i64::MAX),
            },
    {
        let mut total: i64 = 0;
        let mut i: usize = 0;
        proof {
            assert(self@.take(0) =~= Seq::<TagMetaSpec>::empty());
        }
        while i < self.tag_metas.len()
            invariant
                i <= self.tag_metas@.len(),
                total == summary_minutes(self@.take(i as int)),
            decreases self.tag_metas@.len() - i,
        {
            let minutes = self.tag_metas[i].duration.num_minutes();
            proof {
                assert(self@.take(i + 1).drop_last() =~= self@.take(i as int));
                assert(self@.take(i + 1).last() == self.tag_metas@[i as int]@);
            }
            match total.checked_add(minutes) {
                Some(sum) => {
                    total = sum;
                },
                None => {
                    proof {
                        assert(!(i64::MIN <= summary_minutes(self@.take(i + 1)) <= i64::MAX));
                    }
                    return None;
                },
            }
            i += 1;
        }
        proof {
            assert(self@.take(i as int) =~= self@);
        }
        Some(LogDuration::from_minutes(total))
    }

    /// This summary and another one together; `None` where a sum is more
    /// than its number can hold. The entries must not have negative minutes.
    pub fn combine(&self, other: &TagMetas) -> (combined: Option<TagMetas>)
        requires
            no_negative_minutes(self@),
            no_negative_minutes(other@),
        ensures
            match combined {
                Some(summary) => combines(summary@, self@, other@),
                None => exists|tag: Seq<char>|
                    (#[trigger] tally(self@ + other@, tag)).count > usize::MAX || tally(
                        self@ + other@,
                        tag,
                    ).minutes > i64::MAX,
            },
    {
        let mut metas: Vec<TagMeta> = Vec::new();
        proof {
            assert(tag_meta_views(metas@) =~= Seq::<TagMetaSpec>::empty());
            assert(Seq::<TagMetaSpec>::empty() + self@ =~= self@);
        }
        if !absorb(&mut metas, Ghost(Seq::empty()), &self.tag_metas) {
            proof {
                let tag = choose|tag: Seq<char>|
                    (#[trigger] tally(self@, tag)).count > usize::MAX || tally(self@, tag).minutes
                        > i64::MAX;
                lemma_tally_add(self@, other@, tag);
                lemma_tally_bounds(other@, tag);
                lemma_minutes_bounds(other@, tag);
                assert(tally(self@ + other@, tag).count > usize::MAX || tally(
                    self@ + other@,
                    tag,
                ).minutes > i64::MAX);
            }
            return None;
        }
        if !absorb(&mut metas, Ghost(self@), &other.tag_metas) {
            return None;
        }
        let sorted = sorted_by_minutes(metas);
        proof {
            let before = tag_meta_views(metas@);
            let after = tag_meta_views(sorted@);
            let both = self@ + other@;
            assert forall|tag: Seq<char>| #[trigger]
                tally(after, tag) == Tally::zero().merged(
                    tally(self@, tag).plus(tally(other@, tag)),
                ) by {
                lemma_tally_add(self@, other@, tag);
                assert(tally(before, tag) == Tally::zero().merged(tally(both, tag)));
            }
            assert forall|i: int| 0 <= i < after.len() implies has_entry(
                both,
                (#[trigger] after[i]).tag,
                after[i].kind,
            ) && after[i].minutes >= 0 by {
                assert(before.contains(after[i]));
                let k = choose|k: int| 0 <= k < before.len() && before[k] == after[i];
                assert(has_entry(both, before[k].tag, before[k].kind));
            }
        }
        Some(TagMetas { tag_metas: sorted })
    }
}

/// The minutes that a summary holds for a label are not negative where
/// those of no entry are.
pub proof fn lemma_minutes_bounds(summary: Seq<TagMetaSpec>, tag: Seq<char>)
    requires
        no_negative_minutes(summary),
    ensures
        tally(summary, tag).minutes >= 0,
    decreases summary.len(),
{
    if summary.len() > 0 {
        assert forall|i: int| 0 <= i < summary.drop_last().len() implies (
        #[trigger] summary.drop_last()[i]).minutes >= 0 by {
            assert(summary.drop_last()[i] == summary[i]);
        }
        lemma_minutes_bounds(summary.drop_last(), tag);
        assert(summary.last() == summary[summary.len() - 1]);
    }
}

/// Adds the entries of a summary to a tidy summary that holds `done`
/// already. Gives `false` where a sum is more than its number can hold.
fn absorb(metas: &mut Vec<TagMeta>, Ghost(done): Ghost<Seq<TagMetaSpec>>, entries: &Vec<TagMeta>) -> (ok:
    bool)
    requires
        is_tidy(tag_meta_views(old(metas)@)),
        forall|tag: Seq<char>| #[trigger]
            tally(tag_meta_views(old(metas)@), tag) == Tally::zero().merged(tally(done, tag)),
        is_drawn_from(tag_meta_views(old(metas)@), done),
        no_negative_minutes(done),
        no_negative_minutes(tag_meta_views(entries@)),
    ensures
        ok ==> is_tidy(tag_meta_views(final(metas)@)),
        ok ==> forall|tag: Seq<char>| #[trigger]
            tally(tag_meta_views(final(metas)@), tag) == Tally::zero().merged(
                tally(done + tag_meta_views(entries@), tag),
            ),
        ok ==> is_drawn_from(tag_meta_views(final(metas)@), done + tag_meta_views(entries@)),
        !ok ==> exists|tag: Seq<char>|
            (#[trigger] tally(done + tag_meta_views(entries@), tag)).count > usize::MAX || tally(
                done + tag_meta_views(entries@),
                tag,
            ).minutes > i64::MAX,
{
    let ghost added = tag_meta_views(entries@);
    let mut i: usize = 0;
    proof {
        assert(done + added.take(0) =~= done);
    }
    while i < entries.len()
        invariant
            i <= entries@.len(),
            added == tag_meta_views(entries@),
            is_tidy(tag_meta_views(metas@)),
            no_negative_minutes(done),
            no_negative_minutes(added),
            forall|tag: Seq<char>| #[trigger]
                tally(tag_meta_views(metas@), tag) == Tally::zero().merged(
                    tally(done + added.take(i as int), tag),
                ),
            is_drawn_from(tag_meta_views(metas@), done + added.take(i as int)),
        decreases entries@.len() - i,
    {
        let entry = &entries[i];
        let ghost held = tag_meta_views(metas@);
        let ghost seen = done + added.take(i as int);
        let ghost next = done + added.take(i + 1);
        proof {
            assert(added[i as int] == entry@);
            assert(next =~= seen.push(entry@));
            assert(entry@.minutes >= 0);
        }
        let ok = record(metas, &entry.tag, entry.kind, entry.duration.num_minutes(), entry.count);
        proof {
            assert forall|tag: Seq<char>| #[trigger]
                tally(next, tag) == tally(seen, tag).plus(tally_of(entry@, tag)) by {
                lemma_tally_push(seen, entry@, tag);
            }
            lemma_tally_bounds(seen, entry@.tag);
            assert(tally(held, entry@.tag) == Tally::zero().merged(tally(seen, entry@.tag)));
        }
        if !ok {
            proof {
                let tag = entry@.tag;
                let whole = done + added;
                assert(whole =~= next + added.skip(i + 1));
                lemma_tally_add(next, added.skip(i + 1), tag);
                lemma_tally_bounds(added.skip(i + 1), tag);
                assert forall|k: int| 0 <= k < added.skip(i + 1).len() implies (
                #[trigger] added.skip(i + 1)[k]).minutes >= 0 by {
                    assert(added.skip(i + 1)[k] == added[k + i + 1]);
                }
                lemma_minutes_bounds(added.skip(i + 1), tag);
                assert(tally(whole, tag).count > usize::MAX || tally(whole, tag).minutes
                    > i64::MAX);
            }
            return false;
        }
        proof {
            let after = tag_meta_views(metas@);
            assert forall|tag: Seq<char>| #[trigger]
                tally(after, tag) == Tally::zero().merged(tally(next, tag)) by {
                lemma_tally_bounds(seen, tag);
                assert(tally(held, tag) == Tally::zero().merged(tally(seen, tag)));
            }
            assert forall|k: int| 0 <= k < after.len() implies has_entry(
                next,
                (#[trigger] after[k]).tag,
                after[k].kind,
            ) by {
                if k < held.len() {
                    assert(after[k] == metas@[k]@);
                    assert(after[k].tag == held[k].tag && after[k].kind == held[k].kind);
                    assert(has_entry(seen, held[k].tag, held[k].kind));
                    let j = choose|j: int|
                        0 <= j < seen.len() && (#[trigger] seen[j]).tag == held[k].tag
                            && seen[j].kind == held[k].kind;
                    assert(next[j] == seen[j]);
                } else {
                    assert(after[k] == metas@[k]@);
                    assert(next[next.len() - 1] == entry@);
                }
            }
        }
        i += 1;
    }
    proof {
        assert(added.take(i as int) =~= added);
    }
    true
}

impl LogDay {
    /// The summary of the day for a kind of token; `None` where a label
    /// occurs more often, or for more minutes, than the numbers can hold.
    pub fn tag_summary(&self, kind: TokenKind) -> (summary: Option<TagMetas>)
        ensures
            match summary {
                Some(summary) => summarises(summary@, self@.logs, kind),
                None => exists|tag: Seq<char>|
                    (#[trigger] occurrences(self@.logs, kind, tag)).count > usize::MAX
                        || occurrences(self@.logs, kind, tag).minutes > i64::MAX,
            },
    {
        let mut metas: Vec<TagMeta> = Vec::new();
        proof {
            assert(tag_meta_views(metas@) =~= Seq::<TagMetaSpec>::empty());
        }
        if !tally_logs(&mut metas, self.logs(), kind) {
            return None;
        }
        let sorted = sorted_by_minutes(metas);
        proof {
            let after = tag_meta_views(sorted@);
            let before = tag_meta_views(metas@);
            assert forall|i: int| 0 <= i < after.len() implies (#[trigger] after[i]).kind == kind
                && after[i].minutes >= 0 by {
                assert(before.contains(after[i]));
                let j = choose|j: int| 0 <= j < before.len() && before[j] == after[i];
                assert(before[j] == metas@[j]@);
            }
        }
        Some(TagMetas { tag_metas: sorted })
    }
}

impl LogDays {
    /// The summary of all days for a kind of token; `None` where a label
    /// occurs more often, or for more minutes, than the numbers can hold.
    pub fn tag_summary(&self, tag: TokenKind) -> (summary: Option<TagMetas>)
        ensures
            match summary {
                Some(summary) => summarises(summary@, all_logs(self@), tag),
                None => exists|label: Seq<char>|
                    (#[trigger] occurrences(all_logs(self@), tag, label)).count > usize::MAX
                        || occurrences(all_logs(self@), tag, label).minutes > i64::MAX,
            },
    {
        let mut metas: Vec<TagMeta> = Vec::new();
        let count = self.len();
        let mut i: usize = 0;
        proof {
            assert(tag_meta_views(metas@) =~= Seq::<TagMetaSpec>::empty());
            assert(self@.take(0) =~= Seq::<LogDaySpec>::empty());
        }
        while i < count
            invariant
                count == self@.len(),
                all_days_valid(self@),
                i <= count,
                is_tidy(tag_meta_views(metas@)),
                forall|label: Seq<char>| #[trigger]
                    tally(tag_meta_views(metas@), label) == expected_tally(
                        all_logs(self@.take(i as int)),
                        tag,
                        label,
                    ),
                forall|k: int| 0 <= k < metas@.len() ==> (#[trigger] metas@[k])@.kind == tag,
            decreases count - i,
        {
            let day = self.at(i);
            let ghost held = tag_meta_views(metas@);
            let ghost kinds = metas@;
            let ghost front = all_logs(self@.take(i as int));
            proof {
                assert(self@.take(i + 1).drop_last() =~= self@.take(i as int));
                assert(self@.take(i + 1).last() == day@);
            }
            let ok = tally_logs(&mut metas, day.logs(), tag);
            proof {
                lemma_all_logs_valid(self@);
                lemma_all_logs_valid(self@.take(i as int));
                assert(self@ =~= self@.take(i + 1) + self@.skip(i + 1));
                lemma_all_logs_add(self@.take(i + 1), self@.skip(i + 1));
                assert forall|label: Seq<char>| #[trigger]
                    occurrences(all_logs(self@.take(i + 1)), tag, label) == occurrences(
                        front,
                        tag,
                        label,
                    ).plus(occurrences(day@.logs, tag, label)) && 0 <= occurrences(
                        all_logs(self@.take(i + 1)),
                        tag,
                        label,
                    ).count <= occurrences(all_logs(self@), tag, label).count && occurrences(
                        all_logs(self@.take(i + 1)),
                        tag,
                        label,
                    ).minutes <= occurrences(all_logs(self@), tag, label).minutes && 0
                        <= occurrences(front, tag, label).count == occurrences(
                        front,
                        tag,
                        label,
                    ).entries by {
                    lemma_occurrences_add(front, day@.logs, tag, label);
                    lemma_occurrences_bounds(
                        all_logs(self@),
                        tag,
                        label,
                        all_logs(self@.take(i + 1)).len() as int,
                    );
                    assert(all_logs(self@).take(all_logs(self@.take(i + 1)).len() as int)
                        =~= all_logs(self@.take(i + 1)));
                    lemma_occurrences_bounds(front, tag, label, 0);
                }
            }
            if !ok {
                proof {
                    let label = choose|label: Seq<char>|
                        tally(held, label).count + (#[trigger] occurrences(
                            day@.logs,
                            tag,
                            label,
                        )).count > usize::MAX || tally(held, label).minutes + occurrences(
                            day@.logs,
                            tag,
                            label,
                        ).minutes > i64::MAX;
                    assert(tally(held, label) == expected_tally(front, tag, label));
                    assert(occurrences(all_logs(self@.take(i + 1)), tag, label) == occurrences(
                        front,
                        tag,
                        label,
                    ).plus(occurrences(day@.logs, tag, label)));
                    assert(occurrences(all_logs(self@), tag, label).count > usize::MAX
                        || occurrences(all_logs(self@), tag, label).minutes > i64::MAX);
                }
                return None;
            }
            proof {
                assert forall|label: Seq<char>| #[trigger]
                    tally(tag_meta_views(metas@), label) == expected_tally(
                        all_logs(self@.take(i + 1)),
                        tag,
                        label,
                    ) by {
                    assert(tally(held, label) == expected_tally(front, tag, label));
                    assert(occurrences(all_logs(self@.take(i + 1)), tag, label) == occurrences(
                        front,
                        tag,
                        label,
                    ).plus(occurrences(day@.logs, tag, label)));
                    lemma_occurrences_bounds(day@.logs, tag, label, 0);
                }
                assert forall|k: int| 0 <= k < metas@.len() implies (#[trigger] metas@[k])@.kind
                    == tag by {
                    if k < kinds.len() {
                        assert(kinds[k]@.kind == tag);
                    }
                }
            }
            i += 1;
        }
        proof {
            assert(self@.take(i as int) =~= self@);
        }
        let sorted = sorted_by_minutes(metas);
        proof {
            let after = tag_meta_views(sorted@);
            let before = tag_meta_views(metas@);
            assert forall|k: int| 0 <= k < after.len() implies (#[trigger] after[k]).kind == tag
                && after[k].minutes >= 0 by {
                assert(before.contains(after[k]));
                let j = choose|j: int| 0 <= j < before.len() && before[j] == after[k];
                assert(before[j] == metas@[j]@);
            }
        }
        Some(TagMetas { tag_metas: sorted })
    }
}

} // verus!
