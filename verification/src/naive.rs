//! Log parsing that copies every field into storage of its own.
//!
//! A log line is a run of fields separated by `|`: a timestamp, a level, a
//! message, and then any number of metadata fields of the form `key=value`.
//! A line with fewer than three fields is no entry and is passed over.

use crate::text::{filter_map, lines, next_line, split, split_all, split_first, split_once, texts};
use vstd::hash_map::StringHashMap;
use vstd::prelude::*;
use vstd::string::*;

verus! {

/// One parsed log line. Every field owns its text.
pub struct LogEntry {
    pub timestamp: String,
    pub level: String,
    pub message: String,
    /// The metadata by key. Where a line gives a key more than once, the
    /// last value stands.
    pub metadata: StringHashMap<String>,
}

/// What a [`LogEntry`] says, as plain text.
#[verifier::ext_equal]
pub struct LogRecord {
    pub timestamp: Seq<char>,
    pub level: Seq<char>,
    pub message: Seq<char>,
    pub metadata: Map<Seq<char>, Seq<char>>,
}

/// The map `m` with each value as plain text.
pub open spec fn value_texts(m: Map<Seq<char>, String>) -> Map<Seq<char>, Seq<char>> {
    m.map_values(|v: String| v@)
}

impl View for LogEntry {
    type V = LogRecord;

    open spec fn view(&self) -> LogRecord {
        LogRecord {
            timestamp: self.timestamp@,
            level: self.level@,
            message: self.message@,
            metadata: value_texts(self.metadata@),
        }
    }
}

/// The entries of `entries` as plain text, in order.
pub open spec fn records(entries: Seq<LogEntry>) -> Seq<LogRecord> {
    Seq::new(entries.len(), |i: int| entries[i]@)
}

/// The metadata that the fields `items` give. A field with a `=` maps what
/// stands before its first `=` to what stands after it; a field without one
/// is passed over; a later field overrides an earlier one with the same key.
pub open spec fn metadata_map(items: Seq<Seq<char>>) -> Map<Seq<char>, Seq<char>>
    decreases items.len(),
{
    if items.len() == 0 {
        Map::empty()
    } else {
        let earlier = metadata_map(items.drop_last());
        match split_once(items.last(), '=') {
            Some((key, value)) => earlier.insert(key, value),
            None => earlier,
        }
    }
}

/// What one line parses to, if it is an entry.
pub open spec fn parse_line(line: Seq<char>) -> Option<LogRecord> {
    let fields = split(line, '|');
    if fields.len() < 3 {
        None
    } else {
        Some(
            LogRecord {
                timestamp: fields[0],
                level: fields[1],
                message: fields[2],
                metadata: metadata_map(fields.skip(3)),
            },
        )
    }
}

/// What the lines `ls` parse to: the entries among them, in order.
pub open spec fn parse_lines(ls: Seq<Seq<char>>) -> Seq<LogRecord> {
    filter_map(ls, |line: Seq<char>| parse_line(line))
}

/// Parses one log line. Gives `None` for a line with fewer than three
/// fields.
pub fn parse_single_log(line: &str) -> (entry: Option<LogEntry>)
    ensures
        match entry {
            Some(e) => parse_line(line@) == Some(e@),
            None => parse_line(line@) is None,
        },
{
    let parts = split_all(line, '|');
    if parts.len() < 3 {
        return None;
    }
    let ghost fields = split(line@, '|');
    let mut metadata: StringHashMap<String> = StringHashMap::new();
    let mut i: usize = 3;
    proof {
        assert(value_texts(metadata@) =~= metadata_map(fields.subrange(3, 3)));
    }
    while i < parts.len()
        invariant
            3 <= i <= parts@.len(),
            texts(parts@) == fields,
            value_texts(metadata@) == metadata_map(fields.subrange(3, i as int)),
        decreases parts@.len() - i,
    {
        let ghost before = metadata@;
        let ghost done = fields.subrange(3, i as int);
        let ghost next = fields.subrange(3, i + 1);
        proof {
            assert(next.drop_last() =~= done);
            assert(next.last() == parts@[i as int]@);
        }
        if let Some((key, value)) = split_first(parts[i], '=') {
            metadata.insert(key.to_owned(), value.to_owned());
            proof {
                assert(value_texts(metadata@) =~= value_texts(before).insert(key@, value@));
            }
        }
        i += 1;
    }
    proof {
        assert(fields.subrange(3, i as int) =~= fields.skip(3));
    }
    let entry = LogEntry {
        timestamp: parts[0].to_owned(),
        level: parts[1].to_owned(),
        message: parts[2].to_owned(),
        metadata,
    };
    proof {
        assert(entry@ =~= parse_line(line@).unwrap());
    }
    Some(entry)
}

/// Parses a log, one entry per line, and gives the entries in the order of
/// their lines. Lines that are no entries are passed over.
pub fn parse_logs(input: &str) -> (entries: Vec<LogEntry>)
    ensures
        records(entries@) == parse_lines(lines(input@)),
{
    let mut entries: Vec<LogEntry> = Vec::new();
    let mut rest = input;
    proof {
        assert(records(entries@) + parse_lines(lines(rest@)) =~= parse_lines(lines(input@)));
    }
    while !rest.is_empty()
        invariant
            records(entries@) + parse_lines(lines(rest@)) == parse_lines(lines(input@)),
        decreases rest@.len(),
    {
        let ghost before = entries@;
        let (line, tail) = next_line(rest);
        proof {
            assert((seq![line@] + lines(tail@)).drop_first() =~= lines(tail@));
        }
        if let Some(entry) = parse_single_log(line) {
            entries.push(entry);
            proof {
                assert(records(entries@) =~= records(before) + seq![entry@]);
            }
        }
        proof {
            assert(records(entries@) + parse_lines(lines(tail@)) =~= records(before)
                + parse_lines(lines(rest@)));
        }
        rest = tail;
    }
    proof {
        assert(records(entries@) + parse_lines(lines(rest@)) =~= records(entries@));
    }
    entries
}

} // verus!
