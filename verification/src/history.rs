//! The entry collection: the ordered list of history entries read from one
//! file, with its destructive operations (duplicate removal, date-range
//! removal, word filtering) and the encoder that regenerates the exact file
//! content.
//!
//! Order is file order (oldest first); destructive operations preserve the
//! relative order of the surviving entries.
use crate::dates::{
    date_in_range, date_le, local_date_of_timestamp, spec_date_in_range, valid_date, Date,
};
use crate::decoder::{all_lines_valid, decode_records, first_bad_line, spec_records, split_lines};
use crate::filters::{spec_filter_matches, Filter};
use crate::entry::{
    rec_command, rec_elapsed, rec_timestamp, record_valid, spec_entry_line, HistoryEntry,
};
use crate::errors::HistoryError;
use crate::text::spec_u64_string;
use vstd::prelude::*;

verus! {

/// The mathematical model of one entry: its command text and its two
/// timing fields.
pub ghost struct EntryModel {
    /// The command text.
    pub command: Seq<char>,
    /// Seconds since the epoch when the command was started.
    pub timestamp: nat,
    /// Seconds the command took to run.
    pub elapsed: nat,
}

impl View for HistoryEntry {
    type V = EntryModel;

    open spec fn view(&self) -> EntryModel {
        EntryModel {
            command: self.command@,
            timestamp: self.timestamp as nat,
            elapsed: self.elapsed as nat,
        }
    }
}

/// Whether a logical record parses into an entry: it matches the grammar
/// and its elapsed field fits in 64 bits.
pub open spec fn record_parses(r: Seq<char>) -> bool {
    record_valid(r) && rec_elapsed(r) <= u64::MAX
}

/// The model of the entry parsed from a valid record.
pub open spec fn model_of_record(r: Seq<char>) -> EntryModel {
    EntryModel { command: rec_command(r), timestamp: rec_timestamp(r), elapsed: rec_elapsed(r) }
}

/// The entries parsed from the records `rs[i..]`: records that do not parse
/// are skipped, the others are kept in order.
pub open spec fn entries_from(rs: Seq<Seq<char>>, i: int) -> Seq<EntryModel>
    recommends
        0 <= i <= rs.len(),
    decreases rs.len() - i,
{
    if i < 0 || i >= rs.len() {
        Seq::empty()
    } else if record_parses(rs[i]) {
        seq![model_of_record(rs[i])] + entries_from(rs, i + 1)
    } else {
        entries_from(rs, i + 1)
    }
}

/// The entries that survive duplicate removal: for every distinct command,
/// only the last occurrence in file order, at its original position among
/// the other survivors.
pub open spec fn spec_dedup(s: Seq<EntryModel>) -> Seq<EntryModel>
    decreases s.len(),
{
    if s.len() == 0 {
        Seq::empty()
    } else {
        spec_dedup(s.drop_last()).filter(|m: EntryModel| m.command != s.last().command).push(
            s.last(),
        )
    }
}

/// Whether no two entries of `s` share a command.
pub open spec fn distinct_commands(s: Seq<EntryModel>) -> bool {
    forall|i: int, j: int|
        0 <= i < j < s.len() ==> (#[trigger] s[i]).command != (#[trigger] s[j]).command
}

/// Whether some entry after position `i` has the same command.
pub open spec fn has_dup_after(s: Seq<EntryModel>, i: int) -> bool {
    exists|j: int| i < j < s.len() && (#[trigger] s[j]).command == s[i].command
}

/// Whether no entry before position `i` has the same command.
pub open spec fn is_first_occurrence(s: Seq<EntryModel>, i: int) -> bool {
    forall|k: int| 0 <= k < i ==> (#[trigger] s[k]).command != s[i].command
}

/// How many distinct command values among the first `n` first-occurrence
/// positions occur more than once in all of `s`.
pub open spec fn dup_count_upto(s: Seq<EntryModel>, n: int) -> nat
    recommends
        n <= s.len(),
    decreases n,
{
    if n <= 0 {
        0
    } else {
        dup_count_upto(s, n - 1) + if is_first_occurrence(s, n - 1) && has_dup_after(s, n - 1) {
            1nat
        } else {
            0nat
        }
    }
}

/// The number of distinct command values that occur more than once.
pub open spec fn spec_dup_count(s: Seq<EntryModel>) -> nat {
    dup_count_upto(s, s.len() as int)
}

/// The entries of `s[i..]` that survive date filtering against the
/// per-entry local dates `ds`: an entry whose timestamp has no local date
/// is kept (ambiguous data is never deleted), one whose date lies in
/// `[start, end]` is removed.
pub open spec fn keep_outside_range(
    s: Seq<EntryModel>,
    ds: Seq<Option<Date>>,
    start: Date,
    end: Date,
    i: int,
) -> Seq<EntryModel>
    recommends
        0 <= i <= s.len(),
        ds.len() == s.len(),
    decreases s.len() - i,
{
    if i < 0 || i >= s.len() {
        Seq::empty()
    } else {
        let rest = keep_outside_range(s, ds, start, end, i + 1);
        match ds[i] {
            Option::None => seq![s[i]] + rest,
            Option::Some(d) => if spec_date_in_range(d, start, end) {
                rest
            } else {
                seq![s[i]] + rest
            },
        }
    }
}

/// The running minimum and maximum of the local dates seen so far, in
/// calendar order; entries without a local date contribute nothing.
pub open spec fn spec_range_fold(
    ds: Seq<Option<Date>>,
    i: int,
    acc: Option<(Date, Date)>,
) -> Option<(Date, Date)>
    recommends
        0 <= i <= ds.len(),
    decreases ds.len() - i,
{
    if i < 0 || i >= ds.len() {
        acc
    } else {
        let acc2 = match ds[i] {
            Option::None => acc,
            Option::Some(d) => match acc {
                Option::None => Option::Some((d, d)),
                Option::Some((lo, hi)) => Option::Some(
                    (
                        if crate::dates::spec_date_le(lo, d) {
                            lo
                        } else {
                            d
                        },
                        if crate::dates::spec_date_le(hi, d) {
                            d
                        } else {
                            hi
                        },
                    ),
                ),
            },
        };
        spec_range_fold(ds, i + 1, acc2)
    }
}

/// The file content that encodes the entries `s[i..]`, one line per entry.
pub open spec fn render_from(s: Seq<EntryModel>, i: int) -> Seq<char>
    recommends
        0 <= i <= s.len(),
    decreases s.len() - i,
{
    if i < 0 || i >= s.len() {
        Seq::empty()
    } else {
        spec_entry_line(s[i].command, s[i].timestamp, s[i].elapsed) + seq!['\n'] + render_from(
            s,
            i + 1,
        )
    }
}

/// The history read from one file: the ordered entries and the name of the
/// file they came from.
pub struct History {
    /// The file the history was read from.
    pub filename: String,
    /// The entries, in file order.
    pub entries: Vec<HistoryEntry>,
}

impl View for History {
    type V = Seq<EntryModel>;

    open spec fn view(&self) -> Seq<EntryModel> {
        self.entries@.map_values(|e: HistoryEntry| e@)
    }
}

impl History {
    /// Builds a history from the raw bytes of a history file.  The bytes
    /// are decoded into logical records; records that do not parse are
    /// skipped, so malformed lines never abort the load.  Fails only when a
    /// line is not valid text after unmasking.
    pub fn from_content(filename: String, content: &Vec<u8>) -> (r: Result<
        History,
        HistoryError,
    >)
        ensures
            all_lines_valid(content@) ==> (r matches Ok(h) && h.filename@ == filename@ && h@
                == entries_from(spec_records(content@), 0)),
            !all_lines_valid(content@) ==> (r matches Err(HistoryError::LineEncodingError(no, msg))
                && no@ == spec_u64_string((first_bad_line(split_lines(content@), 0) + 1) as nat)
                && msg@ == "stream did not contain valid UTF-8"@),
    {
        let records = match decode_records(content) {
            Ok(rs) => rs,
            Err(e) => {
                return Err(e);
            },
        };
        let ghost rs = records@.map_values(|x: String| x@);
        let mut entries: Vec<HistoryEntry> = Vec::new();
        let mut i: usize = 0;
        proof {
            assert(entries@.map_values(|e: HistoryEntry| e@) + entries_from(rs, 0) =~= entries_from(
                rs,
                0,
            ));
        }
        while i < records.len()
            invariant
                rs == records@.map_values(|x: String| x@),
                i <= records@.len(),
                entries_from(rs, 0) == entries@.map_values(|e: HistoryEntry| e@) + entries_from(
                    rs,
                    i as int,
                ),
            decreases records@.len() - i,
        {
            proof {
                assert(rs[i as int] == records@[i as int]@);
            }
            match HistoryEntry::try_from(records[i].as_str()) {
                Ok(e) => {
                    entries.push(e);
                    proof {
                        assert(entries@.map_values(|e: HistoryEntry| e@)
                            =~= entries@.drop_last().map_values(|e: HistoryEntry| e@).push(
                            entries@.last()@,
                        ));
                        assert(entries_from(rs, 0) =~= entries@.map_values(|e: HistoryEntry| e@)
                            + entries_from(rs, i as int + 1));
                    }
                },
                Err(_) => {
                    proof {
                        assert(!record_parses(rs[i as int]));
                    }
                },
            }
            i = i + 1;
        }
        proof {
            assert(entries_from(rs, rs.len() as int) == Seq::<EntryModel>::empty());
            assert(entries_from(rs, 0) =~= entries@.map_values(|e: HistoryEntry| e@));
        }
        Ok(History { filename, entries })
    }

    /// The number of entries.
    pub fn size(&self) -> (r: usize)
        ensures
            r == self@.len(),
    {
        self.entries.len()
    }

    /// Whether the history holds no entry.
    pub fn is_empty(&self) -> (r: bool)
        ensures
            r == (self@.len() == 0),
    {
        self.entries.is_empty()
    }

    /// The file the history was read from.
    pub fn filename(&self) -> (r: &str)
        ensures
            r@ == self.filename@,
    {
        self.filename.as_str()
    }

    /// The entries, in file order.
    pub fn entries(&self) -> (r: &Vec<HistoryEntry>)
        ensures
            r@ == self.entries@,
    {
        &self.entries
    }

    /// Removes duplicate commands, keeping for each distinct command only
    /// its last occurrence in file order; the surviving entries keep their
    /// relative order.  Returns the number of entries removed.
    pub fn remove_duplicates(&mut self) -> (removed: usize)
        ensures
            final(self)@ == spec_dedup(old(self)@),
            final(self).filename@ == old(self).filename@,
            removed == old(self)@.len() - final(self)@.len(),
    {
        let ghost s = self@;
        let before_count = self.entries.len();
        let mut acc: Vec<HistoryEntry> = Vec::new();
        let mut i: usize = 0;
        proof {
            assert(s.take(0) =~= Seq::<EntryModel>::empty());
            assert(acc@.map_values(|e: HistoryEntry| e@) =~= spec_dedup(s.take(0)));
        }
        while i < self.entries.len()
            invariant
                s == self@,
                i <= self.entries@.len(),
                acc@.map_values(|e: HistoryEntry| e@) == spec_dedup(s.take(i as int)),
            decreases self.entries@.len() - i,
        {
            let e = self.entries[i].duplicate();
            let ghost cmd = e@.command;
            proof {
                assert(e@ == s[i as int]);
            }
            // Drop every earlier survivor that shares the new command.
            let mut kept: Vec<HistoryEntry> = Vec::new();
            let mut k: usize = 0;
            proof {
                assert(acc@.map_values(|x: HistoryEntry| x@).take(0) =~= Seq::<
                    EntryModel,
                >::empty());
                assert(kept@.map_values(|x: HistoryEntry| x@) =~= acc@.map_values(
                    |x: HistoryEntry| x@,
                ).take(0).filter(|m: EntryModel| m.command != cmd));
            }
            while k < acc.len()
                invariant
                    i < s.len(),
                    cmd == s[i as int].command,
                    cmd == e@.command,
                    k <= acc@.len(),
                    kept@.map_values(|x: HistoryEntry| x@) == acc@.map_values(
                        |x: HistoryEntry| x@,
                    ).take(k as int).filter(|m: EntryModel| m.command != cmd),
                decreases acc@.len() - k,
            {
                let ghost am = acc@.map_values(|x: HistoryEntry| x@);
                proof {
                    assert(am.take(k as int + 1).drop_last() =~= am.take(k as int));
                    assert(am.take(k as int + 1).last() == am[k as int]);
                    assert(am[k as int] == acc@[k as int]@);
                    reveal(Seq::filter);
                }
                if !(acc[k].command == e.command) {
                    kept.push(acc[k].duplicate());
                    proof {
                        assert(kept@.map_values(|x: HistoryEntry| x@)
                            =~= kept@.drop_last().map_values(|x: HistoryEntry| x@).push(
                            kept@.last()@,
                        ));
                        assert(kept@.map_values(|x: HistoryEntry| x@) =~= am.take(
                            k as int + 1,
                        ).filter(|m: EntryModel| m.command != cmd));
                    }
                } else {
                    proof {
                        assert(kept@.map_values(|x: HistoryEntry| x@) =~= am.take(
                            k as int + 1,
                        ).filter(|m: EntryModel| m.command != cmd));
                    }
                }
                k = k + 1;
            }
            proof {
                let am = acc@.map_values(|x: HistoryEntry| x@);
                assert(am.take(am.len() as int) =~= am);
            }
            acc = kept;
            acc.push(e);
            proof {
                assert(s.take(i as int + 1).drop_last() =~= s.take(i as int));
                assert(s.take(i as int + 1).last() == s[i as int]);
                assert(acc@.map_values(|x: HistoryEntry| x@) =~= acc@.drop_last().map_values(
                    |x: HistoryEntry| x@,
                ).push(acc@.last()@));
                assert(acc@.map_values(|x: HistoryEntry| x@) =~= spec_dedup(s.take(i as int + 1)));
            }
            i = i + 1;
        }
        proof {
            assert(s.take(s.len() as int) =~= s);
            lemma_dedup_len(s);
        }
        self.entries = acc;
        before_count - self.entries.len()
    }

    /// Removes every entry whose command contains one of the filter's
    /// words; the surviving entries keep their relative order.  Returns the
    /// number of entries removed.
    pub fn remove_matching(&mut self, filter: &Filter) -> (removed: usize)
        ensures
            final(self)@ == old(self)@.filter(
                |m: EntryModel|
                    !spec_filter_matches(
                        filter.words@.map_values(|w: String| w@),
                        filter.ignore_case,
                        m.command,
                    ),
            ),
            final(self).filename@ == old(self).filename@,
            removed == old(self)@.len() - final(self)@.len(),
    {
        let ghost s = self@;
        let ghost pred = |m: EntryModel|
            !spec_filter_matches(
                filter.words@.map_values(|w: String| w@),
                filter.ignore_case,
                m.command,
            );
        let before_count = self.entries.len();
        let mut kept: Vec<HistoryEntry> = Vec::new();
        let mut i: usize = 0;
        proof {
            reveal(Seq::filter);
            assert(s.take(0) =~= Seq::<EntryModel>::empty());
            assert(kept@.map_values(|x: HistoryEntry| x@) =~= s.take(0).filter(pred));
        }
        while i < self.entries.len()
            invariant
                s == self@,
                i <= s.len(),
                pred == (|m: EntryModel|
                    !spec_filter_matches(
                        filter.words@.map_values(|w: String| w@),
                        filter.ignore_case,
                        m.command,
                    )),
                kept@.map_values(|x: HistoryEntry| x@) == s.take(i as int).filter(pred),
            decreases s.len() - i,
        {
            let matches = filter.matches(self.entries[i].command());
            proof {
                reveal(Seq::filter);
                assert(s[i as int] == self.entries@[i as int]@);
                assert(s.take(i as int + 1).drop_last() =~= s.take(i as int));
                assert(s.take(i as int + 1).last() == s[i as int]);
            }
            if !matches {
                kept.push(self.entries[i].duplicate());
                proof {
                    assert(kept@.map_values(|x: HistoryEntry| x@)
                        =~= kept@.drop_last().map_values(|x: HistoryEntry| x@).push(
                        kept@.last()@,
                    ));
                    assert(kept@.map_values(|x: HistoryEntry| x@) =~= s.take(
                        i as int + 1,
                    ).filter(pred));
                }
            } else {
                proof {
                    assert(kept@.map_values(|x: HistoryEntry| x@) =~= s.take(
                        i as int + 1,
                    ).filter(pred));
                }
            }
            i = i + 1;
        }
        proof {
            assert(s.take(s.len() as int) =~= s);
            s.lemma_filter_len(pred);
        }
        self.entries = kept;
        before_count - self.entries.len()
    }

    /// Removes every entry whose timestamp, read as a date in the local
    /// time zone, falls within `[start, end]` inclusive.  Entries whose
    /// timestamp has no local date are kept.  Returns the number removed.
    /// The surviving entries are exactly those outside the range under the
    /// local-date interpretation of their timestamps, in their original
    /// order.
    pub fn remove_between_dates(&mut self, start: &Date, end: &Date) -> (removed: usize)
        ensures
            exists|ds: Seq<Option<Date>>|
                ds.len() == old(self)@.len() && final(self)@ == keep_outside_range(
                    old(self)@,
                    ds,
                    *start,
                    *end,
                    0,
                ),
            final(self).filename@ == old(self).filename@,
            removed == old(self)@.len() - final(self)@.len(),
    {
        let ghost s = self@;
        let mut dates: Vec<Option<Date>> = Vec::new();
        let mut i: usize = 0;
        while i < self.entries.len()
            invariant
                s == self@,
                i <= s.len(),
                dates@.len() == i,
            decreases s.len() - i,
        {
            dates.push(local_date_of_timestamp(*self.entries[i].timestamp()));
            i = i + 1;
        }
        let removed = self.remove_by_dates(&dates, start, end);
        proof {
            assert(self@ == keep_outside_range(s, dates@, *start, *end, 0));
        }
        removed
    }

    /// Removes every entry whose local date in `dates` — the date of its
    /// position — lies within `[start, end]` inclusive; an entry whose
    /// slot holds no date is kept, and the survivors keep their relative
    /// order.  This is the whole date-filtering decision, on plain values:
    /// `remove_between_dates` obtains `dates` from the entries' timestamps
    /// and calls here.
    pub fn remove_by_dates(&mut self, dates: &Vec<Option<Date>>, start: &Date, end: &Date) -> (removed: usize)
        requires
            dates@.len() == old(self)@.len(),
        ensures
            final(self)@ == keep_outside_range(old(self)@, dates@, *start, *end, 0),
            final(self).filename@ == old(self).filename@,
            removed == old(self)@.len() - final(self)@.len(),
    {
        let ghost s = self@;
        let ghost ds = dates@;
        let before_count = self.entries.len();
        let mut kept: Vec<HistoryEntry> = Vec::new();
        let mut k: usize = 0;
        proof {
            assert(keep_outside_range(s, ds, *start, *end, 0) =~= kept@.map_values(
                |x: HistoryEntry| x@,
            ) + keep_outside_range(s, ds, *start, *end, 0));
        }
        while k < self.entries.len()
            invariant
                s == self@,
                ds == dates@,
                ds.len() == s.len(),
                k <= s.len(),
                keep_outside_range(s, ds, *start, *end, 0) == kept@.map_values(
                    |x: HistoryEntry| x@,
                ) + keep_outside_range(s, ds, *start, *end, k as int),
            decreases s.len() - k,
        {
            proof {
                assert(s[k as int] == self.entries@[k as int]@);
            }
            let keep = match &dates[k] {
                None => true,
                Some(d) => !date_in_range(d, start, end),
            };
            if keep {
                kept.push(self.entries[k].duplicate());
                proof {
                    assert(kept@.map_values(|x: HistoryEntry| x@)
                        =~= kept@.drop_last().map_values(|x: HistoryEntry| x@).push(
                        kept@.last()@,
                    ));
                    assert(keep_outside_range(s, ds, *start, *end, 0) =~= kept@.map_values(
                        |x: HistoryEntry| x@,
                    ) + keep_outside_range(s, ds, *start, *end, k as int + 1));
                }
            } else {
                proof {
                    assert(keep_outside_range(s, ds, *start, *end, 0) =~= kept@.map_values(
                        |x: HistoryEntry| x@,
                    ) + keep_outside_range(s, ds, *start, *end, k as int + 1));
                }
            }
            k = k + 1;
        }
        proof {
            assert(keep_outside_range(s, ds, *start, *end, s.len() as int) == Seq::<
                EntryModel,
            >::empty());
            assert(kept@.map_values(|x: HistoryEntry| x@) =~= keep_outside_range(
                s,
                ds,
                *start,
                *end,
                0,
            ));
            lemma_keep_outside_range_len(s, ds, *start, *end, 0);
        }
        self.entries = kept;
        before_count - self.entries.len()
    }

    /// The minimum and maximum local date over all entries whose timestamp
    /// has one, scanning the whole collection; `None` when the collection
    /// is empty or no timestamp converts.
    pub fn date_range(&self) -> (r: Option<(Date, Date)>)
        ensures
            self@.len() == 0 ==> r is None,
            exists|ds: Seq<Option<Date>>|
                ds.len() == self@.len() && r == spec_range_fold(ds, 0, Option::None) && (forall|
                    j: int,
                |
                    0 <= j < ds.len() ==> ((#[trigger] ds[j]) matches Some(d) ==> valid_date(d))),
    {
        let mut dates: Vec<Option<Date>> = Vec::new();
        let mut i: usize = 0;
        while i < self.entries.len()
            invariant
                i <= self.entries@.len(),
                dates@.len() == i,
                forall|j: int|
                    0 <= j < i ==> ((#[trigger] dates@[j]) matches Some(d) ==> valid_date(d)),
            decreases self.entries@.len() - i,
        {
            dates.push(local_date_of_timestamp(*self.entries[i].timestamp()));
            i = i + 1;
        }
        fold_date_range(&dates)
    }

    /// The number of distinct command values that occur more than once.
    pub fn count_duplicates(&self) -> (r: usize)
        ensures
            r == spec_dup_count(self@),
    {
        let ghost s = self@;
        let n = self.entries.len();
        let mut count: usize = 0;
        let mut i: usize = 0;
        while i < n
            invariant
                s == self@,
                n == s.len(),
                i <= n,
                count == dup_count_upto(s, i as int),
                count <= i,
            decreases n - i,
        {
            let first = !self.exists_same_in(0, i, i);
            let dup = self.exists_same_in(i + 1, n, i);
            if first && dup {
                count = count + 1;
            }
            i = i + 1;
        }
        count
    }

    /// Whether some entry with index in `[lo, hi)` shares the command of
    /// the entry at `at`.
    fn exists_same_in(&self, lo: usize, hi: usize, at: usize) -> (r: bool)
        requires
            lo <= hi <= self@.len(),
            at < self@.len(),
        ensures
            r == exists|j: int|
                lo <= j < hi && (#[trigger] self@[j]).command == self@[at as int].command,
    {
        let mut j = lo;
        while j < hi
            invariant
                lo <= j <= hi <= self@.len(),
                at < self@.len(),
                forall|k: int| lo <= k < j ==> (#[trigger] self@[k]).command != self@[
                    at as int].command,
            decreases hi - j,
        {
            if self.entries[j].command == self.entries[at].command {
                proof {
                    assert(self@[j as int] == self.entries@[j as int]@);
                    assert(self@[at as int] == self.entries@[at as int]@);
                }
                return true;
            }
            proof {
                assert(self@[j as int] == self.entries@[j as int]@);
                assert(self@[at as int] == self.entries@[at as int]@);
            }
            j = j + 1;
        }
        false
    }

    /// The exact file content that encodes the entries: one history line
    /// per entry, each followed by a newline.
    pub fn to_file_content(&self) -> (r: String)
        ensures
            r@ == render_from(self@, 0),
    {
        let ghost s = self@;
        let mut r = String::new();
        let mut i: usize = 0;
        proof {
            assert(r@ + render_from(s, 0) =~= render_from(s, 0));
        }
        while i < self.entries.len()
            invariant
                s == self@,
                i <= s.len(),
                render_from(s, 0) == r@ + render_from(s, i as int),
            decreases s.len() - i,
        {
            let line = self.entries[i].to_history_line();
            proof {
                assert(self.entries@[i as int]@ == s[i as int]);
            }
            r.append(line.as_str());
            r.append("\n");
            proof {
                reveal_strlit("\n");
                assert("\n"@ =~= seq!['\n']);
                assert(render_from(s, 0) =~= r@ + render_from(s, i as int + 1));
            }
            i = i + 1;
        }
        proof {
            assert(render_from(s, s.len() as int) == Seq::<char>::empty());
            assert(r@ =~= render_from(s, 0));
        }
        r
    }
}

/// The least and greatest date among the given optional dates, in
/// calendar order, scanning left to right; `None` when no slot holds a
/// date.  This is the whole date-span computation, on plain values:
/// `History::date_range` obtains the dates from the entries' timestamps
/// and calls here.
pub fn fold_date_range(dates: &Vec<Option<Date>>) -> (r: Option<(Date, Date)>)
    ensures
        r == spec_range_fold(dates@, 0, Option::None),
{
    let ghost ds = dates@;
    let mut acc: Option<(Date, Date)> = None;
    let mut k: usize = 0;
    while k < dates.len()
        invariant
            ds == dates@,
            k <= ds.len(),
            spec_range_fold(ds, 0, Option::None) == spec_range_fold(ds, k as int, acc),
        decreases ds.len() - k,
    {
        match &dates[k] {
            None => {},
            Some(d) => {
                match acc {
                    None => {
                        acc = Some((*d, *d));
                    },
                    Some((lo, hi)) => {
                        let new_lo = if date_le(&lo, d) {
                            lo
                        } else {
                            *d
                        };
                        let new_hi = if date_le(&hi, d) {
                            *d
                        } else {
                            hi
                        };
                        acc = Some((new_lo, new_hi));
                    },
                }
            },
        }
        k = k + 1;
    }
    acc
}

/// Date filtering never grows the sequence.
proof fn lemma_keep_outside_range_len(
    s: Seq<EntryModel>,
    ds: Seq<Option<Date>>,
    start: Date,
    end: Date,
    i: int,
)
    requires
        0 <= i <= s.len(),
    ensures
        keep_outside_range(s, ds, start, end, i).len() <= s.len() - i,
    decreases s.len() - i,
{
    if i < s.len() {
        lemma_keep_outside_range_len(s, ds, start, end, i + 1);
    }
}

/// Deduplication never grows the sequence.
pub proof fn lemma_dedup_len(s: Seq<EntryModel>)
    ensures
        spec_dedup(s).len() <= s.len(),
    decreases s.len(),
{
    if s.len() > 0 {
        lemma_dedup_len(s.drop_last());
        s.drop_last().lemma_filter_len(|m: EntryModel| m.command != s.last().command);
        spec_dedup(s.drop_last()).lemma_filter_len(
            |m: EntryModel| m.command != s.last().command,
        );
    }
}

/// A filter keeps a sequence whose every element satisfies the predicate.
proof fn lemma_filter_all(s: Seq<EntryModel>, pred: spec_fn(EntryModel) -> bool)
    requires
        forall|i: int| 0 <= i < s.len() ==> pred(#[trigger] s[i]),
    ensures
        s.filter(pred) == s,
    decreases s.len(),
{
    reveal(Seq::filter);
    if s.len() > 0 {
        assert(forall|i: int|
            0 <= i < s.drop_last().len() ==> pred(#[trigger] s.drop_last()[i]));
        lemma_filter_all(s.drop_last(), pred);
        assert(pred(s.last()));
        assert(s.filter(pred) =~= s);
    }
}

/// Every element of a filtered sequence occurs in the sequence itself.
proof fn lemma_filter_membership(s: Seq<EntryModel>, pred: spec_fn(EntryModel) -> bool, i: int)
    requires
        0 <= i < s.filter(pred).len(),
    ensures
        s.contains(s.filter(pred)[i]),
    decreases s.len(),
{
    reveal(Seq::filter);
    if s.len() > 0 {
        let f0 = s.drop_last().filter(pred);
        if pred(s.last()) && i == s.filter(pred).len() - 1 {
            assert(s.filter(pred)[i] == s.last());
            assert(s.last() == s[s.len() - 1]);
        } else {
            assert(s.filter(pred)[i] == f0[i]);
            lemma_filter_membership(s.drop_last(), pred, i);
            let w = choose|k: int| 0 <= k < s.drop_last().len() && s.drop_last()[k] == f0[i];
            assert(s[w] == f0[i]);
        }
    }
}

/// A filter of a sequence with pairwise distinct commands is again
/// pairwise distinct.
proof fn lemma_filter_distinct(s: Seq<EntryModel>, pred: spec_fn(EntryModel) -> bool)
    requires
        distinct_commands(s),
    ensures
        distinct_commands(s.filter(pred)),
    decreases s.len(),
{
    reveal(Seq::filter);
    if s.len() > 0 {
        assert(distinct_commands(s.drop_last())) by {
            assert(forall|i: int, j: int|
                0 <= i < j < s.drop_last().len() ==> (#[trigger] s.drop_last()[i]).command != (
                #[trigger] s.drop_last()[j]).command);
        }
        lemma_filter_distinct(s.drop_last(), pred);
        if pred(s.last()) {
            let f = s.drop_last().filter(pred);
            assert forall|i: int|
                0 <= i < f.len() implies (#[trigger] f[i]).command != s.last().command by {
                lemma_filter_membership(s.drop_last(), pred, i);
                let w = choose|k: int| 0 <= k < s.drop_last().len() && s.drop_last()[k] == f[i];
                assert(s[w] == f[i]);
                assert(s[w].command != s[s.len() - 1].command);
                assert(s.last() == s[s.len() - 1]);
            }
            assert(distinct_commands(f.push(s.last()))) by {
                assert(forall|i: int, j: int|
                    0 <= i < j < f.push(s.last()).len() ==> (#[trigger] f.push(s.last())[i]).command
                        != (#[trigger] f.push(s.last())[j]).command);
            }
        }
    }
}

/// Every two survivors of deduplication have different commands.
pub proof fn lemma_dedup_distinct(s: Seq<EntryModel>)
    ensures
        distinct_commands(spec_dedup(s)),
    decreases s.len(),
{
    if s.len() > 0 {
        lemma_dedup_distinct(s.drop_last());
        let pred = |m: EntryModel| m.command != s.last().command;
        lemma_filter_distinct(spec_dedup(s.drop_last()), pred);
        let f = spec_dedup(s.drop_last()).filter(pred);
        assert forall|i: int| 0 <= i < f.len() implies (#[trigger] f[i]).command
            != s.last().command by {
            spec_dedup(s.drop_last()).lemma_filter_pred(pred, i);
        }
        assert(distinct_commands(f.push(s.last()))) by {
            assert(forall|i: int, j: int|
                0 <= i < j < f.push(s.last()).len() ==> (#[trigger] f.push(s.last())[i]).command
                    != (#[trigger] f.push(s.last())[j]).command);
        }
    }
}

/// Deduplicating a sequence whose commands are already pairwise distinct
/// changes nothing.
pub proof fn lemma_dedup_of_distinct(s: Seq<EntryModel>)
    requires
        distinct_commands(s),
    ensures
        spec_dedup(s) == s,
    decreases s.len(),
{
    if s.len() > 0 {
        assert(distinct_commands(s.drop_last())) by {
            assert(forall|i: int, j: int|
                0 <= i < j < s.drop_last().len() ==> (#[trigger] s.drop_last()[i]).command != (
                #[trigger] s.drop_last()[j]).command);
        }
        lemma_dedup_of_distinct(s.drop_last());
        let pred = |m: EntryModel| m.command != s.last().command;
        assert(forall|i: int| 0 <= i < s.drop_last().len() ==> pred(#[trigger] s.drop_last()[i]))
            by {
            assert(forall|i: int|
                0 <= i < s.len() - 1 ==> (#[trigger] s[i]).command != s[s.len() - 1].command);
        }
        lemma_filter_all(s.drop_last(), pred);
        assert(spec_dedup(s) =~= s);
    }
}

/// Deduplication is idempotent: a second pass removes nothing.
pub proof fn lemma_dedup_idempotent(s: Seq<EntryModel>)
    ensures
        spec_dedup(spec_dedup(s)) == spec_dedup(s),
{
    lemma_dedup_distinct(s);
    lemma_dedup_of_distinct(spec_dedup(s));
}

} // verus!
