use perf_patterns::naive;
use perf_patterns::optimized;
use perf_patterns::test_utils::generate_log_data;
use std::collections::HashMap;

// The two parsers as the standard library's string functions express them.

fn naive_by_std(input: &str) -> Vec<(String, String, String, HashMap<String, String>)> {
    input
        .lines()
        .filter_map(|line| {
            let parts: Vec<&str> = line.split('|').collect();
            if parts.len() < 3 {
                return None;
            }
            let mut metadata = HashMap::new();
            if parts.len() > 3 {
                for item in &parts[3..] {
                    if let Some((key, value)) = item.split_once('=') {
                        metadata.insert(key.to_string(), value.to_string());
                    }
                }
            }
            Some((parts[0].to_string(), parts[1].to_string(), parts[2].to_string(), metadata))
        })
        .collect()
}

fn optimized_by_std(input: &str) -> Vec<(&str, &str, &str, Vec<(&str, &str)>)> {
    let mut entries = Vec::new();
    for line in input.lines() {
        let mut splits = line.match_indices('|');
        let Some((first_pos, _)) = splits.next() else { continue };
        let timestamp = &line[..first_pos];
        let Some((second_pos, _)) = splits.next() else { continue };
        let level = &line[first_pos + 1..second_pos];
        let message = if let Some((next_pos, _)) = splits.next() {
            &line[second_pos + 1..next_pos]
        } else {
            &line[second_pos + 1..]
        };
        let metadata = if let Some((pos, _)) = splits.next() {
            line[pos + 1..].split('|').filter_map(|pair| pair.split_once('=')).collect()
        } else {
            Vec::new()
        };
        entries.push((timestamp, level, message, metadata));
    }
    entries
}

const LOGS: [&str; 22] = [
    "",
    "\n",
    "\n\n",
    "a|b|c",
    "a|b|c\n",
    "a|b|c\r\n",
    "a|b|c\r",
    "a|b\nc|d|e\n|||\n",
    "a|b|c|k=v",
    "a|b|c|k=v|k2=v2",
    "a|b|c|k=v|k=w|k=x|novalue|=empty|e=|a=b=c",
    "a|b|c||||",
    "||",
    "|",
    "no separators at all",
    "t|l|m|x=1\r\nt2|l2|m2|x=2|y=3\r\n\r\nbad\r\n",
    "t|l|m|x=1\n\rt2|l2|m2\r\r\n",
    "2025-01-01T12:00:00|ERROR|Database connection failed|retry=7|timeout=30|attempt=1|user=admin|ip=127.0.0.1\n",
    "\u{e9}t\u{e9}|\u{4e16}\u{754c}|\u{1F980} crab|cl\u{e9}=v\u{e4}lue|\u{1F980}=\u{1F99E}|x=y",
    "a|b|c|k=v\nlast line without feed|x|y|z|q=r",
    "a|b|c|skipped=1|kept=2\na|b|c|only=1",
    "=|=|=|=|=|=",
];

fn assert_naive_agrees(input: &str) {
    let entries = naive::parse_logs(input);
    let expected = naive_by_std(input);
    assert_eq!(entries.len(), expected.len(), "{:?}", input);
    for (entry, (timestamp, level, message, metadata)) in entries.iter().zip(expected.iter()) {
        assert_eq!(&entry.timestamp, timestamp, "{:?}", input);
        assert_eq!(&entry.level, level, "{:?}", input);
        assert_eq!(&entry.message, message, "{:?}", input);
        assert_eq!(entry.metadata.len(), metadata.len(), "{:?}", input);
        for (key, value) in metadata {
            assert_eq!(entry.metadata.get(key), Some(value), "{:?}", input);
        }
    }
}

fn assert_optimized_agrees(input: &str) {
    let entries = optimized::parse_logs(input);
    let expected = optimized_by_std(input);
    assert_eq!(entries.len(), expected.len(), "{:?}", input);
    for (entry, (timestamp, level, message, metadata)) in entries.iter().zip(expected.iter()) {
        assert_eq!(entry.timestamp, *timestamp, "{:?}", input);
        assert_eq!(entry.level, *level, "{:?}", input);
        assert_eq!(entry.message, *message, "{:?}", input);
        assert_eq!(&entry.metadata, metadata, "{:?}", input);
    }
}

#[test]
fn naive_parses_fields_and_metadata() {
    let entries =
        naive::parse_logs("2025-01-01T12:00:00|ERROR|Database connection failed|retry=3|timeout=30\n");
    assert_eq!(entries.len(), 1);
    let entry = &entries[0];
    assert_eq!(entry.timestamp, "2025-01-01T12:00:00");
    assert_eq!(entry.level, "ERROR");
    assert_eq!(entry.message, "Database connection failed");
    assert_eq!(entry.metadata.len(), 2);
    assert_eq!(entry.metadata.get("retry").unwrap(), "3");
    assert_eq!(entry.metadata.get("timeout").unwrap(), "30");
}

#[test]
fn naive_later_value_overrides_earlier() {
    let entry = naive::parse_single_log("t|l|m|k=1|other=x|k=2|k=3=4").unwrap();
    assert_eq!(entry.metadata.len(), 2);
    assert_eq!(entry.metadata.get("k").unwrap(), "3=4");
    assert_eq!(entry.metadata.get("other").unwrap(), "x");
}

#[test]
fn naive_passes_over_fields_without_equals_sign() {
    let entry = naive::parse_single_log("t|l|m|plain|=v|k=|").unwrap();
    assert_eq!(entry.metadata.len(), 2);
    assert_eq!(entry.metadata.get("").unwrap(), "v");
    assert_eq!(entry.metadata.get("k").unwrap(), "");
    assert!(!entry.metadata.contains_key("plain"));
}

#[test]
fn lines_with_fewer_than_three_fields_are_no_entries() {
    assert!(naive::parse_single_log("").is_none());
    assert!(naive::parse_single_log("only").is_none());
    assert!(naive::parse_single_log("two|fields").is_none());
    assert!(naive::parse_single_log("a|b|c").is_some());
    assert!(naive::parse_single_log("||").is_some());
    assert!(optimized::parse_single_log_fast("").is_none());
    assert!(optimized::parse_single_log_fast("only").is_none());
    assert!(optimized::parse_single_log_fast("two|fields").is_none());
    assert!(optimized::parse_single_log_fast("a|b|c").is_some());
    assert!(optimized::parse_single_log_fast("||").is_some());
}

#[test]
fn optimized_skips_the_field_after_the_message() {
    let entries = optimized::parse_logs("t|INFO|msg|a=1|b=2|c=3");
    assert_eq!(entries.len(), 1);
    let entry = &entries[0];
    assert_eq!(entry.timestamp, "t");
    assert_eq!(entry.level, "INFO");
    assert_eq!(entry.message, "msg");
    assert_eq!(entry.metadata, vec![("b", "2"), ("c", "3")]);

    let entry = optimized::parse_single_log_fast("t|INFO|msg|a=1").unwrap();
    assert!(entry.metadata.is_empty());
    let entry = optimized::parse_single_log_fast("t|INFO|msg").unwrap();
    assert_eq!(entry.message, "msg");
    assert!(entry.metadata.is_empty());
}

#[test]
fn optimized_keeps_repeated_keys_in_order() {
    let entry = optimized::parse_single_log_fast("t|l|m|x|k=1|plain|k=2|a=b=c|=|").unwrap();
    assert_eq!(entry.metadata, vec![("k", "1"), ("k", "2"), ("a", "b=c"), ("", "")]);
}

#[test]
fn optimized_entries_borrow_from_the_input() {
    let input = String::from("stamp|level|message|x|k=v\n");
    let entries = optimized::parse_logs(&input);
    let begin = input.as_ptr() as usize;
    let end = begin + input.len();
    let entry = &entries[0];
    for piece in [entry.timestamp, entry.level, entry.message, entry.metadata[0].0, entry.metadata[0].1] {
        let at = piece.as_ptr() as usize;
        assert!(begin <= at && at + piece.len() <= end);
    }
}

#[test]
fn line_endings() {
    let entries = optimized::parse_logs("a|b|c\r\nd|e|f\n\ng|h|i\r");
    assert_eq!(entries.len(), 3);
    assert_eq!(entries[0].message, "c");
    assert_eq!(entries[1].message, "f");
    // A carriage return without a line feed after it stays in the line.
    assert_eq!(entries[2].message, "i\r");
    let entries = naive::parse_logs("a|b|c\r\nd|e|f\n\ng|h|i\r");
    assert_eq!(entries.len(), 3);
    assert_eq!(entries[0].message, "c");
    assert_eq!(entries[2].message, "i\r");
    // Only one carriage return goes with the line feed.
    let entries = naive::parse_logs("a|b|c\r\r\n");
    assert_eq!(entries[0].message, "c\r");
}

#[test]
fn naive_agrees_with_the_standard_library() {
    for input in LOGS {
        assert_naive_agrees(input);
    }
}

#[test]
fn optimized_agrees_with_the_standard_library() {
    for input in LOGS {
        assert_optimized_agrees(input);
    }
}

#[test]
fn generated_log_has_the_stated_lines() {
    assert_eq!(generate_log_data(0), "");
    assert_eq!(
        generate_log_data(1),
        "2025-01-01T12:00:00|ERROR|Database connection failed|retry=0|timeout=30|attempt=1|user=admin|ip=127.0.0.1\n"
    );
    let data = generate_log_data(1234);
    let lines: Vec<&str> = data.lines().collect();
    assert_eq!(lines.len(), 1234);
    assert!(data.ends_with('\n'));
    for (i, line) in lines.iter().enumerate() {
        assert_eq!(
            *line,
            format!(
                "2025-01-01T12:00:00|ERROR|Database connection failed|retry={}|timeout=30|attempt=1|user=admin|ip=127.0.0.1",
                i
            )
        );
    }
}

#[test]
fn generated_log_parses_to_one_entry_per_line() {
    let data = generate_log_data(120);
    assert_naive_agrees(&data);
    assert_optimized_agrees(&data);

    let entries = naive::parse_logs(&data);
    assert_eq!(entries.len(), 120);
    for (i, entry) in entries.iter().enumerate() {
        assert_eq!(entry.timestamp, "2025-01-01T12:00:00");
        assert_eq!(entry.level, "ERROR");
        assert_eq!(entry.message, "Database connection failed");
        assert_eq!(entry.metadata.len(), 5);
        assert_eq!(entry.metadata.get("retry").unwrap(), &i.to_string());
        assert_eq!(entry.metadata.get("ip").unwrap(), "127.0.0.1");
    }

    let entries = optimized::parse_logs(&data);
    assert_eq!(entries.len(), 120);
    for entry in &entries {
        assert_eq!(entry.timestamp, "2025-01-01T12:00:00");
        assert_eq!(
            entry.metadata,
            vec![("timeout", "30"), ("attempt", "1"), ("user", "admin"), ("ip", "127.0.0.1")]
        );
    }
}

/// A small generator of repeatable pseudo-random numbers.
struct Dice(u64);

impl Dice {
    fn roll(&mut self, sides: usize) -> usize {
        self.0 = self.0.wrapping_mul(6364136223846793005).wrapping_add(1442695040888963407);
        ((self.0 >> 33) as usize) % sides
    }
}

fn random_log(dice: &mut Dice) -> String {
    let alphabet = ['a', 'b', '|', '|', '|', '=', '=', '\n', '\r', ' ', '\u{e9}', '\u{1F980}'];
    let len = dice.roll(40);
    (0..len).map(|_| alphabet[dice.roll(alphabet.len())]).collect()
}

#[test]
fn naive_agrees_with_the_standard_library_on_random_logs() {
    let mut dice = Dice(1);
    for _ in 0..3000 {
        assert_naive_agrees(&random_log(&mut dice));
    }
}

#[test]
fn optimized_agrees_with_the_standard_library_on_random_logs() {
    let mut dice = Dice(2);
    for _ in 0..3000 {
        assert_optimized_agrees(&random_log(&mut dice));
    }
}
