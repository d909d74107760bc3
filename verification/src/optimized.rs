//! Log parsing that copies nothing: every field of an entry borrows from the
//! text that was parsed.
//!
//! A log line is a run of fields separated by `|`: a timestamp, a level and a
//! message. Metadata of the form `key=value` is read from the fields after
//! the fourth `|`; the field between the third and the fourth `|` is not
//! read. A line with fewer than three fields is no entry and is passed over.

use crate::text::{count_lines, filter_map, lines, next_line, split, split_first, split_once};
use vstd::prelude::*;
use vstd::string::*;

verus! {

/// One parsed log line. Every field is a piece of the parsed text.
#[derive(Debug)]
pub struct LogEntry<'a> {
    pub timestamp: &'a str,
    pub level: &'a str,
    pub message: &'a str,
    /// The metadata as pairs of key and value, in the order of the line,
    /// repeated keys included.
    pub metadata: Vec<(&'a str, &'a str)>,
}

/// What a [`LogEntry`] says, as plain text.
pub struct LogRecord {
    pub timestamp: Seq<char>,
    pub level: Seq<char>,
    pub message: Seq<char>,
    pub metadata: Seq<(Seq<char>, Seq<char>)>,
}

/// The pairs `pairs` as plain text, in order.
pub open spec fn pair_texts(pairs: Seq<(&str, &str)>) -> Seq<(Seq<char>, Seq<char>)> {
    Seq::new(pairs.len(), |i: int| (pairs[i].0@, pairs[i].1@))
}

impl<'a> View for LogEntry<'a> {
    type V = LogRecord;

    open spec fn view(&self) -> LogRecord {
        LogRecord {
            timestamp: self.timestamp@,
            level: self.level@,
            message: self.message@,
            metadata: pair_texts(self.metadata@),
        }
    }
}

/// The entries of `entries` as plain text, in order.
pub open spec fn records(entries: Seq<LogEntry<'_>>) -> Seq<LogRecord> {
    Seq::new(entries.len(), |i: int| entries[i]@)
}

/// The metadata that the fields `items` give, in order. A field with a `=`
/// gives what stands before its first `=` and what stands after it; a field
/// without one is passed over.
pub open spec fn metadata_pairs(items: Seq<Seq<char>>) -> Seq<(Seq<char>, Seq<char>)> {
    filter_map(items, |item: Seq<char>| split_once(item, '='))
}

/// What one line parses to, if it is an entry.
pub open spec fn parse_line(line: Seq<char>) -> Option<LogRecord> {
    let fields = split(line, '|');
    if fields.len() < 3 {
        None
    } else {
        Some(
            LogRecord {
                timestamp: fields[0],
                level: fields[1],
                message: fields[2],
                metadata: if fields.len() > 4 {
                    metadata_pairs(fields.skip(4))
                } else {
                    seq![]
                },
            },
        )
    }
}

/// What the lines `ls` parse to: the entries among them, in order.
pub open spec fn parse_lines(ls: Seq<Seq<char>>) -> Seq<LogRecord> {
    filter_map(ls, |line: Seq<char>| parse_line(line))
}

/// Reads the metadata pairs from `fields`, a run of fields separated by `|`.
fn collect_pairs<'a>(fields: &'a str) -> (pairs: Vec<(&'a str, &'a str)>)
    ensures
        pair_texts(pairs@) == metadata_pairs(split(fields@, '|')),
{
    let mut pairs: Vec<(&'a str, &'a str)> = Vec::new();
    let mut rest = fields;
    let mut done = false;
    proof {
        assert(pair_texts(pairs@) + metadata_pairs(split(rest@, '|')) =~= metadata_pairs(
            split(fields@, '|'),
        ));
    }
    while !done
        invariant
            !done ==> pair_texts(pairs@) + metadata_pairs(split(rest@, '|')) == metadata_pairs(
                split(fields@, '|'),
            ),
            done ==> pair_texts(pairs@) == metadata_pairs(split(fields@, '|')),
        decreases
                (if done {
                    0
                } else {
                    rest@.len() + 1
                }),
    {
        let ghost before = pairs@;
        let ghost pieces = split(rest@, '|');
        let item = match split_first(rest, '|') {
            Some((head, tail)) => {
                proof {
                    assert(pieces.drop_first() =~= split(tail@, '|'));
                }
                rest = tail;
                head
            },
            None => {
                proof {
                    assert(pieces.drop_first() =~= Seq::<Seq<char>>::empty());
                    assert(metadata_pairs(pieces.drop_first()) =~= Seq::<
                        (Seq<char>, Seq<char>),
                    >::empty());
                }
                done = true;
                rest
            },
        };
        assert(pieces[0] == item@);
        if let Some((key, value)) = split_first(item, '=') {
            pairs.push((key, value));
            proof {
                assert(pair_texts(pairs@) =~= pair_texts(before) + seq![(key@, value@)]);
            }
        }
        proof {
            assert(pair_texts(pairs@) + metadata_pairs(pieces.drop_first()) =~= pair_texts(before)
                + metadata_pairs(pieces));
        }
    }
    pairs
}

/// Parses one log line. Gives `None` for a line with fewer than three
/// fields.
pub fn parse_single_log_fast<'a>(line: &'a str) -> (entry: Option<LogEntry<'a>>)
    ensures
        match entry {
            Some(e) => parse_line(line@) == Some(e@),
            None => parse_line(line@) is None,
        },
{
    let ghost fields = split(line@, '|');
    let (timestamp, after_timestamp) = match split_first(line, '|') {
        Some(parts) => parts,
        None => {
            return None;
        },
    };
    let ghost fields1 = split(after_timestamp@, '|');
    assert(fields =~= seq![timestamp@] + fields1);
    let (level, after_level) = match split_first(after_timestamp, '|') {
        Some(parts) => parts,
        None => {
            return None;
        },
    };
    let ghost fields2 = split(after_level@, '|');
    assert(fields1 =~= seq![level@] + fields2);
    let (message, metadata) = match split_first(after_level, '|') {
        Some((message, after_message)) => {
            let ghost fields3 = split(after_message@, '|');
            assert(fields2 =~= seq![message@] + fields3);
            let metadata = match split_first(after_message, '|') {
                Some((_, after_fourth)) => {
                    let pairs = collect_pairs(after_fourth);
                    proof {
                        let fields4 = split(after_fourth@, '|');
                        assert(fields3.len() == 1 + fields4.len());
                        assert(fields.skip(4) =~= fields4);
                    }
                    pairs
                },
                None => {
                    let pairs: Vec<(&'a str, &'a str)> = Vec::new();
                    proof {
                        assert(fields3.len() == 1);
                        assert(pair_texts(pairs@) =~= Seq::<(Seq<char>, Seq<char>)>::empty());
                    }
                    pairs
                },
            };
            (message, metadata)
        },
        None => {
            let pairs: Vec<(&'a str, &'a str)> = Vec::new();
            proof {
                assert(pair_texts(pairs@) =~= Seq::<(Seq<char>, Seq<char>)>::empty());
            }
            (after_level, pairs)
        },
    };
    Some(LogEntry { timestamp, level, message, metadata })
}

/// Parses a log, one entry per line, and gives the entries in the order of
/// their lines. Lines that are no entries are passed over. Room for one
/// entry per line is reserved before the first line is parsed.
pub fn parse_logs<'a>(input: &'a str) -> (entries: Vec<LogEntry<'a>>)
    ensures
        records(entries@) == parse_lines(lines(input@)),
{
    let mut entries: Vec<LogEntry<'a>> = Vec::new();
    let _ = entries.try_reserve(count_lines(input));
    let mut rest = input;
    proof {
        assert(records(entries@) + parse_lines(lines(rest@)) =~= parse_lines(lines(input@)));
    }
    while !rest.is_empty()
        invariant
            records(entries@) + parse_lines(lines(rest@)) == parse_lines(lines(input@)),
        decreases rest@.len(),
    {
        let ghost before = entries@;
        let (line, tail) = next_line(rest);
        proof {
            assert((seq![line@] + lines(tail@)).drop_first() =~= lines(tail@));
        }
        if let Some(entry) = parse_single_log_fast(line) {
            entries.push(entry);
            proof {
                assert(records(entries@) =~= records(before) + seq![entry@]);
            }
        }
        proof {
            assert(records(entries@) + parse_lines(lines(tail@)) =~= records(before)
                + parse_lines(lines(rest@)));
        }
        rest = tail;
    }
    proof {
        assert(records(entries@) + parse_lines(lines(rest@)) =~= records(entries@));
    }
    entries
}

} // verus!
