//! One history entry: the record grammar, the parser that turns a logical
//! record into a structured entry, and the encoder that reproduces the exact
//! on-disk line.
//!
//! A record is valid exactly when it has the shape
//! `": " <10-digit-timestamp> ":" <elapsed-digits> ";" <command>`, where the
//! command is everything after the first `;` and may contain further colons,
//! semicolons and embedded newlines.
use crate::errors::HistoryError;
use crate::text::{
    all_digits, chars_of, digits_val, is_digit, lemma_digits_val_bound,
    lemma_digits_val_prefix_bound, lemma_digits_val_take_step, lemma_pow10_monotone,
    lemma_u64_string_of_digits, pow10, spec_u64_string, u64_to_string,
};
use vstd::prelude::*;

verus! {

/// A single command recorded in the history file.
#[derive(Debug)]
pub struct HistoryEntry {
    /// The exact command text, embedded newlines and trailing backslashes
    /// included.
    pub command: String,
    /// Seconds since the epoch when the command was started, as the shell
    /// recorded them.
    pub timestamp: u64,
    /// Seconds the command took to run.
    pub elapsed: u64,
}

/// The first position at or after `i` whose character is not a decimal
/// digit, or the length of `s` when digits run to the end.
pub open spec fn first_non_digit_from(s: Seq<char>, i: int) -> int
    recommends
        0 <= i <= s.len(),
    decreases s.len() - i,
{
    if i < 0 || i >= s.len() {
        s.len() as int
    } else if !is_digit(s[i]) {
        i
    } else {
        first_non_digit_from(s, i + 1)
    }
}

/// Where the elapsed-seconds digit run of a record ends.
pub open spec fn elapsed_end(s: Seq<char>) -> int {
    first_non_digit_from(s, 13)
}

/// Whether `s` matches the history-line grammar.
pub open spec fn record_valid(s: Seq<char>) -> bool {
    &&& s.len() >= 15
    &&& s[0] == ':'
    &&& s[1] == ' '
    &&& forall|k: int| 2 <= k < 12 ==> is_digit(#[trigger] s[k])
    &&& s[12] == ':'
    &&& elapsed_end(s) > 13
    &&& elapsed_end(s) < s.len()
    &&& s[elapsed_end(s)] == ';'
}

/// The timestamp field of a valid record: the value of its ten digits.
pub open spec fn rec_timestamp(s: Seq<char>) -> nat {
    digits_val(s.subrange(2, 12))
}

/// The elapsed-seconds digit run of a valid record.
pub open spec fn rec_elapsed_digits(s: Seq<char>) -> Seq<char> {
    s.subrange(13, elapsed_end(s))
}

/// The elapsed-seconds field of a valid record: the value of its digits.
pub open spec fn rec_elapsed(s: Seq<char>) -> nat {
    digits_val(rec_elapsed_digits(s))
}

/// The command field of a valid record: everything after the first `;`.
pub open spec fn rec_command(s: Seq<char>) -> Seq<char> {
    s.skip(elapsed_end(s) + 1)
}

/// The on-disk line for an entry with the given fields (no trailing
/// newline).
pub open spec fn spec_entry_line(command: Seq<char>, timestamp: nat, elapsed: nat) -> Seq<char> {
    seq![':', ' '] + spec_u64_string(timestamp) + seq![':'] + spec_u64_string(elapsed) + seq![';']
        + command
}

impl HistoryEntry {
    /// The command executed by the user.
    pub fn command(&self) -> (r: &str)
        ensures
            r@ == self.command@,
    {
        self.command.as_str()
    }

    /// The UNIX timestamp when the command was executed.
    pub fn timestamp(&self) -> (r: &u64)
        ensures
            *r == self.timestamp,
    {
        &self.timestamp
    }

    /// The number of seconds the command took to run.
    pub fn duration(&self) -> (r: u64)
        ensures
            r == self.elapsed,
    {
        self.elapsed
    }

    /// The timestamp read as a calendar date in the machine's local time
    /// zone, or `None` when it is out of range.  The value depends on the
    /// local time zone; any returned date is a real calendar date.
    pub fn timestamp_as_local_date(&self) -> (r: Option<crate::dates::Date>)
        ensures
            r matches Some(d) ==> crate::dates::valid_date(d),
    {
        crate::dates::local_date_of_timestamp(self.timestamp)
    }

    /// An entry with the same fields.
    pub fn duplicate(&self) -> (r: HistoryEntry)
        ensures
            r.command@ == self.command@,
            r.timestamp == self.timestamp,
            r.elapsed == self.elapsed,
    {
        HistoryEntry {
            command: self.command.clone(),
            timestamp: self.timestamp,
            elapsed: self.elapsed,
        }
    }

    /// Parses one logical record.  Returns the structured entry when the
    /// record matches the grammar, `EntryMatchingError` when it does not,
    /// and `ParseIntError` when the elapsed field overflows 64 bits.
    pub fn try_from(history_command: &str) -> (r: Result<HistoryEntry, HistoryError>)
        ensures
            record_valid(history_command@) && rec_elapsed(history_command@) <= u64::MAX ==> (
            r matches Ok(e) && e.command@ == rec_command(history_command@) && e.timestamp
                == rec_timestamp(history_command@) && e.elapsed == rec_elapsed(history_command@)),
            record_valid(history_command@) && rec_elapsed(history_command@) > u64::MAX ==> (
            r matches Err(HistoryError::ParseIntError(t)) && t@ == rec_elapsed_digits(
                history_command@,
            )),
            !record_valid(history_command@) ==> (r matches Err(HistoryError::EntryMatchingError(t))
                && t@ == history_command@),
    {
        let ghost s = history_command@;
        let v = chars_of(history_command);
        let n = v.len();
        if v.len() < 15 {
            return Err(HistoryError::EntryMatchingError(history_command.to_owned()));
        }
        if v[0] != ':' || v[1] != ' ' || v[12] != ':' {
            return Err(HistoryError::EntryMatchingError(history_command.to_owned()));
        }
        // The ten timestamp digits, parsed as they are checked.
        let mut timestamp: u64 = 0;
        let mut k: usize = 2;
        while k < 12
            invariant
                s == history_command@,
                s == v@,
                v@.len() >= 15,
                2 <= k <= 12,
                forall|i: int| 2 <= i < k ==> is_digit(#[trigger] s[i]),
                timestamp == digits_val(s.subrange(2, k as int)),
                timestamp < pow10((k - 2) as nat),
            decreases 12 - k,
        {
            let c = v[k];
            if (c as u32) < 48 || (c as u32) > 57 {
                proof {
                    assert(!is_digit(s[k as int]));
                }
                return Err(HistoryError::EntryMatchingError(history_command.to_owned()));
            }
            let d = (c as u32 - 48) as u64;
            proof {
                lemma_pow10_monotone((k - 2) as nat, 10);
                assert(pow10(10) == 10000000000) by {
                    reveal_with_fuel(pow10, 11);
                }
                assert(timestamp * 10 + d < 100000000000);
                assert(s.subrange(2, k as int + 1).drop_last() =~= s.subrange(2, k as int));
                assert(s.subrange(2, k as int + 1).last() == s[k as int]);
            }
            timestamp = timestamp * 10 + d;
            k = k + 1;
        }
        // The elapsed digit run: scan to its end first.
        let mut j: usize = 13;
        while j < n && 48 <= (v[j] as u32) && (v[j] as u32) <= 57
            invariant
                s == history_command@,
                s == v@,
                n == v@.len(),
                v@.len() >= 15,
                13 <= j <= s.len(),
                elapsed_end(s) == first_non_digit_from(s, j as int),
            decreases s.len() - j,
        {
            j = j + 1;
        }
        proof {
            assert(elapsed_end(s) == j as int);
        }
        if j == 13 || j >= v.len() {
            return Err(HistoryError::EntryMatchingError(history_command.to_owned()));
        }
        if v[j] != ';' {
            return Err(HistoryError::EntryMatchingError(history_command.to_owned()));
        }
        proof {
            assert(record_valid(s));
        }
        // The elapsed digits, with an overflow check.
        let ghost ed = rec_elapsed_digits(s);
        proof {
            lemma_first_non_digit_range(s, 13);
            assert(forall|i: int| 0 <= i < ed.len() ==> ed[i] == s[i + 13]);
            assert(all_digits(ed));
        }
        let mut elapsed: u64 = 0;
        let mut m: usize = 13;
        while m < j
            invariant
                s == history_command@,
                s == v@,
                record_valid(s),
                ed == rec_elapsed_digits(s),
                all_digits(ed),
                13 <= m <= j,
                j as int == elapsed_end(s),
                j < s.len(),
                elapsed == digits_val(ed.take(m - 13)),
            decreases j - m,
        {
            let c = v[m];
            proof {
                lemma_first_non_digit_range(s, 13);
                assert(is_digit(s[m as int]));
                assert(ed[m - 13] == s[m as int]);
                lemma_digits_val_take_step(ed, m - 13);
            }
            let d = (c as u32 - 48) as u64;
            let big = match elapsed.checked_mul(10) {
                Some(x) => x.checked_add(d),
                None => None,
            };
            match big {
                Some(x) => {
                    elapsed = x;
                },
                None => {
                    proof {
                        assert(digits_val(ed.take(m - 13 + 1)) > u64::MAX);
                        lemma_digits_val_prefix_bound(ed, m - 13 + 1);
                        assert(rec_elapsed(s) > u64::MAX);
                    }
                    let digits = history_command.substring_char(13, j);
                    proof {
                        assert(digits@ =~= rec_elapsed_digits(s));
                    }
                    return Err(HistoryError::ParseIntError(digits.to_owned()));
                },
            }
            m = m + 1;
        }
        proof {
            assert(ed.take(j - 13) =~= ed);
            assert(elapsed == rec_elapsed(s));
        }
        let command = history_command.substring_char(j + 1, n).to_owned();
        proof {
            assert(command@ =~= rec_command(s));
            lemma_digits_val_bound(s.subrange(2, 12));
        }
        Ok(HistoryEntry { command, timestamp, elapsed })
    }

    /// Converts the entry back into the on-disk history line, with no
    /// trailing newline.
    pub fn to_history_line(&self) -> (r: String)
        ensures
            r@ == spec_entry_line(self.command@, self.timestamp as nat, self.elapsed as nat),
    {
        let mut r = ": ".to_owned();
        let ts = u64_to_string(self.timestamp);
        let el = u64_to_string(self.elapsed);
        r.append(ts.as_str());
        r.append(":");
        r.append(el.as_str());
        r.append(";");
        r.append(self.command.as_str());
        proof {
            reveal_strlit(": ");
            reveal_strlit(":");
            reveal_strlit(";");
            assert(": "@ =~= seq![':', ' ']);
            assert(":"@ =~= seq![':']);
            assert(";"@ =~= seq![';']);
            assert(r@ =~= spec_entry_line(self.command@, self.timestamp as nat,
                self.elapsed as nat));
        }
        r
    }

    /// A human-readable description of the entry.
    pub fn describe(&self) -> (r: String)
        ensures
            r@ == spec_describe(self.command@, self.timestamp as nat, self.elapsed as nat),
    {
        let mut r = "Command: '".to_owned();
        let ts = u64_to_string(self.timestamp);
        let el = u64_to_string(self.elapsed);
        r.append(self.command.as_str());
        r.append("', Executed at: ");
        r.append(ts.as_str());
        r.append(", Duration: ");
        r.append(el.as_str());
        r.append("s");
        r
    }
}

/// The text of `describe`: the command, the raw timestamp and the elapsed
/// seconds, in one line.
pub open spec fn spec_describe(command: Seq<char>, timestamp: nat, elapsed: nat) -> Seq<char> {
    "Command: '"@ + command + "', Executed at: "@ + spec_u64_string(timestamp) + ", Duration: "@
        + spec_u64_string(elapsed) + "s"@
}

impl PartialEq for HistoryEntry {
    /// Equality is determined solely by the `command` field: two entries
    /// with the same command are the same entry for deduplication, even when
    /// their timing fields differ.
    fn eq(&self, other: &Self) -> (r: bool) {
        self.command == other.command
    }
}

impl vstd::std_specs::cmp::PartialEqSpecImpl for HistoryEntry {
    open spec fn obeys_eq_spec() -> bool {
        true
    }

    open spec fn eq_spec(&self, other: &Self) -> bool {
        self.command@ == other.command@
    }
}

impl Eq for HistoryEntry {

}

/// Round trip: encoding the fields parsed from a canonical valid record
/// gives the record back.  Canonical means the timestamp does not start
/// with a zero digit and the elapsed field has no leading zero.
pub proof fn lemma_round_trip(s: Seq<char>)
    requires
        record_valid(s),
        s[2] != '0',
        elapsed_end(s) > 14 ==> s[13] != '0',
    ensures
        spec_entry_line(rec_command(s), rec_timestamp(s), rec_elapsed(s)) == s,
{
    let ts = s.subrange(2, 12);
    let ed = rec_elapsed_digits(s);
    let j = elapsed_end(s);
    assert(ts[0] == s[2]);
    assert(ed[0] == s[13]);
    assert(all_digits(ts)) by {
        assert(forall|i: int| 0 <= i < 10 ==> ts[i] == s[i + 2]);
    }
    assert(all_digits(ed)) by {
        assert(forall|i: int| 0 <= i < ed.len() ==> ed[i] == s[i + 13]);
        assert(forall|i: int|
            13 <= i < j ==> is_digit(#[trigger] s[i])) by {
            lemma_first_non_digit_range(s, 13);
        }
    }
    lemma_u64_string_of_digits(ts);
    lemma_u64_string_of_digits(ed);
    assert(spec_entry_line(rec_command(s), rec_timestamp(s), rec_elapsed(s)) =~= s);
}

/// Every position between `i` and the first non-digit holds a digit.
proof fn lemma_first_non_digit_range(s: Seq<char>, i: int)
    requires
        0 <= i <= s.len(),
    ensures
        forall|k: int| i <= k < first_non_digit_from(s, i) ==> is_digit(#[trigger] s[k]),
    decreases s.len() - i,
{
    if i < s.len() && is_digit(s[i]) {
        lemma_first_non_digit_range(s, i + 1);
    }
}

} // verus!
