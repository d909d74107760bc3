//! The naming rules and the page of the benchmark dashboard.
//!
//! A set of benchmark results is a file. From the file's name without its
//! extension, its stem, the dashboard derives the title it shows, the
//! identifier it uses in links, and the name of its own copy of the file.
//! The dashboard takes in every file with the extension `json`, except the
//! reports that the benchmark run writes for itself.

use crate::text::{
    after_leading, first_char, is_white_space, is_white_space_char, leading, lemma_find,
    lemma_leading_is, lemma_prefix_len, prefix_len, same_text, span, split_first,
    split_first_char, texts,
};
use vstd::prelude::*;
use vstd::string::*;

verus! {

/// The upper-case form of `c` in Unicode, which may be more than one
/// character.
pub uninterp spec fn uppercase_of(c: char) -> Seq<char>;

/// The lower-case form of the text `s` in Unicode.
pub uninterp spec fn lowercase_of(s: Seq<char>) -> Seq<char>;

/// Calls [`char::to_uppercase`] and collects the characters it gives. The
/// mapping is the standard library's table of Unicode upper-case forms; the
/// contract only gives the result its name.
#[verifier::external_body]
fn uppercase(c: char) -> (upper: String)
    ensures
        upper@ == uppercase_of(c),
{
    c.to_uppercase().collect()
}

/// Calls [`str::to_lowercase`]. The mapping is the standard library's table
/// of Unicode lower-case forms; the contract only gives the result its name.
#[verifier::external_body]
fn lowercase(s: &str) -> (lower: String)
    ensures
        lower@ == lowercase_of(s@),
{
    s.to_lowercase()
}

/// The text that RFC 3339 gives the moment `nanos` nanoseconds after the
/// second `secs`, counted from the start of 1970 in UTC, where a moment has
/// these numbers.
pub uninterp spec fn rfc3339_of(secs: int, nanos: int) -> Option<Seq<char>>;

/// Calls `chrono::DateTime::from_timestamp` to make the moment with these
/// numbers, which gives none where the numbers are out of its range, and
/// `chrono::DateTime::to_rfc3339` to write it. Both depend on their arguments
/// alone; the contract only gives the result its name.
#[verifier::external_body]
fn rfc3339(secs: i64, nanos: u32) -> (text: Option<String>)
    ensures
        match text {
            Some(t) => rfc3339_of(secs as int, nanos as int) == Some(t@),
            None => rfc3339_of(secs as int, nanos as int) is None,
        },
{
    match chrono::DateTime::from_timestamp(secs, nanos) {
        Some(moment) => Some(moment.to_rfc3339()),
        None => None,
    }
}

/// Whether `c` separates the words of a stem: an underscore or white space.
pub open spec fn is_separator(c: char) -> bool {
    c == '_' || is_white_space(c)
}

/// The separators, as a predicate.
pub open spec fn separators() -> spec_fn(char) -> bool {
    |c: char| is_separator(c)
}

/// The characters of words, as a predicate.
pub open spec fn word_chars() -> spec_fn(char) -> bool {
    |c: char| !is_separator(c)
}

/// The words of `s`: its longest runs of characters that are no separators,
/// in order.
pub open spec fn words(s: Seq<char>) -> Seq<Seq<char>>
    decreases s.len(),
{
    let start = after_leading(s, separators());
    if start.len() == 0 {
        Seq::empty()
    } else {
        proof {
            lemma_word_shrinks(s);
        }
        seq![leading(start, word_chars())] + words(after_leading(start, word_chars()))
    }
}

/// The word `w` with its first character in upper case.
pub open spec fn capitalized(w: Seq<char>) -> Seq<char> {
    if w.len() == 0 {
        w
    } else {
        uppercase_of(w[0]) + w.drop_first()
    }
}

/// The words `ws`, each with its first character in upper case.
pub open spec fn all_capitalized(ws: Seq<Seq<char>>) -> Seq<Seq<char>> {
    Seq::new(ws.len(), |i: int| capitalized(ws[i]))
}

/// The texts `pieces` in order, with `separator` between each two.
pub open spec fn joined(pieces: Seq<Seq<char>>, separator: Seq<char>) -> Seq<char>
    decreases pieces.len(),
{
    if pieces.len() == 0 {
        Seq::empty()
    } else if pieces.len() == 1 {
        pieces[0]
    } else {
        joined(pieces.drop_last(), separator) + separator + pieces.last()
    }
}

/// The title for the stem `stem`: its words, each with its first character
/// in upper case, with one space between each two.
pub open spec fn title_of(stem: Seq<char>) -> Seq<char> {
    joined(all_capitalized(words(stem)), seq![' '])
}

/// `s` with a hyphen in place of every space.
pub open spec fn dashed(s: Seq<char>) -> Seq<char> {
    Seq::new(
        s.len(),
        |i: int|
            if s[i] == ' ' {
                '-'
            } else {
                s[i]
            },
    )
}

/// The identifier for the stem `stem`: its lower-case form with a hyphen in
/// place of every space.
pub open spec fn id_of(stem: Seq<char>) -> Seq<char> {
    dashed(lowercase_of(stem))
}

/// Whether `s` starts with `prefix`.
pub open spec fn starts_with(s: Seq<char>, prefix: Seq<char>) -> bool {
    prefix.len() <= s.len() && s.take(prefix.len() as int) == prefix
}

/// Whether `needle` occurs in `s`.
pub open spec fn occurs_in(needle: Seq<char>, s: Seq<char>) -> bool {
    exists|i: int| 0 <= i <= s.len() && #[trigger] starts_with(s.skip(i), needle)
}

/// Whether the dashboard takes in the file with the extension `extension`
/// and the path `path`.
pub open spec fn takes_in(extension: Option<Seq<char>>, path: Seq<char>) -> bool {
    extension == Some("json"@) && !occurs_in("benchmark-report"@, path)
}

/// A word and what follows it are shorter than the text they stand in.
pub proof fn lemma_word_shrinks(s: Seq<char>)
    ensures
        after_leading(s, separators()).len() > 0 ==> after_leading(
            after_leading(s, separators()),
            word_chars(),
        ).len() < s.len(),
{
    let start = after_leading(s, separators());
    lemma_prefix_len(s, separators());
    lemma_prefix_len(start, word_chars());
    if start.len() > 0 {
        assert(start[0] == s[prefix_len(s, separators())]);
        assert(word_chars()(start[0]));
        assert(prefix_len(start, word_chars()) > 0);
    }
}

/// Whether `c` separates words.
fn is_separator_char(c: char) -> (answer: bool)
    ensures
        answer == is_separator(c),
{
    c == '_' || is_white_space_char(c)
}

/// Whether `c` belongs to a word.
fn is_word_char(c: char) -> (answer: bool)
    ensures
        answer == !is_separator(c),
{
    !is_separator_char(c)
}

/// The texts of `items`, in order.
pub open spec fn string_texts(items: Seq<String>) -> Seq<Seq<char>> {
    Seq::new(items.len(), |i: int| items[i]@)
}

/// The words of `stem`, in order: its longest runs of characters that are
/// neither underscores nor white space.
pub fn stem_words<'a>(stem: &'a str) -> (found: Vec<&'a str>)
    ensures
        texts(found@) == words(stem@),
{
    let mut found: Vec<&'a str> = Vec::new();
    let mut rest = stem;
    let mut finished = false;
    proof {
        assert(texts(found@) + words(rest@) =~= words(stem@));
    }
    while !finished
        invariant
            !finished ==> texts(found@) + words(rest@) == words(stem@),
            finished ==> texts(found@) == words(stem@),
        decreases
                (if finished {
                    0
                } else {
                    rest@.len() + 1
                }),
    {
        let ghost before = found@;
        let (gap, start) = span(rest, is_separator_char);
        proof {
            lemma_leading_is(rest@, separators(), gap@, start@);
            lemma_word_shrinks(rest@);
        }
        if start.is_empty() {
            proof {
                assert(texts(found@) + Seq::<Seq<char>>::empty() =~= texts(found@));
            }
            finished = true;
        } else {
            let (word, after) = span(start, is_word_char);
            proof {
                lemma_leading_is(start@, word_chars(), word@, after@);
            }
            found.push(word);
            proof {
                assert(texts(found@) =~= texts(before) + seq![word@]);
                assert(texts(found@) + words(after@) =~= texts(before) + words(rest@));
            }
            rest = after;
        }
    }
    found
}

/// `word` with the text `upper` in place of its first character. An empty
/// word stays empty.
pub fn with_first_replaced(word: &str, upper: &str) -> (text: String)
    ensures
        text@ == if word@.len() == 0 {
            word@
        } else {
            upper@ + word@.drop_first()
        },
{
    let mut text = String::new();
    match split_first_char(word) {
        Some((_, tail)) => {
            text.append(upper);
            text.append(tail);
        },
        None => {
            proof {
                assert(text@ =~= word@);
            }
        },
    }
    text
}

/// `word` with its first character in upper case.
fn capitalize(word: &str) -> (text: String)
    ensures
        text@ == capitalized(word@),
{
    match first_char(word) {
        Some(c) => {
            let upper = uppercase(c);
            with_first_replaced(word, upper.as_str())
        },
        None => with_first_replaced(word, ""),
    }
}

/// The texts `items` in order, with one space between each two.
pub fn join_words(items: &Vec<String>) -> (text: String)
    ensures
        text@ == joined(string_texts(items@), seq![' ']),
{
    let mut text = String::new();
    let mut i: usize = 0;
    proof {
        assert(string_texts(items@).take(0) =~= Seq::<Seq<char>>::empty());
    }
    while i < items.len()
        invariant
            i <= items@.len(),
            text@ == joined(string_texts(items@).take(i as int), seq![' ']),
        decreases items@.len() - i,
    {
        let ghost before = text@;
        let ghost done = string_texts(items@).take(i as int);
        let ghost longer = string_texts(items@).take(i + 1);
        if i > 0 {
            text.append(" ");
            proof {
                reveal_strlit(" ");
                assert(" "@ =~= seq![' ']);
            }
        }
        text.append(items[i].as_str());
        proof {
            assert(longer.drop_last() =~= done);
            assert(longer.last() == items@[i as int]@);
            assert(text@ =~= joined(longer, seq![' ']));
        }
        i += 1;
    }
    proof {
        assert(string_texts(items@).take(i as int) =~= string_texts(items@));
    }
    text
}

/// The title that the dashboard shows for the benchmark file with the stem
/// `stem`: the words of the stem, each with its first character in upper
/// case, with one space between each two. Underscores and white space
/// separate the words.
pub fn display_name(stem: &str) -> (name: String)
    ensures
        name@ == title_of(stem@),
{
    let found = stem_words(stem);
    let mut titled: Vec<String> = Vec::new();
    let mut i: usize = 0;
    while i < found.len()
        invariant
            i <= found@.len(),
            texts(found@) == words(stem@),
            titled@.len() == i,
            forall|k: int| 0 <= k < i ==> (#[trigger] titled@[k])@ == capitalized(found@[k]@),
        decreases found@.len() - i,
    {
        titled.push(capitalize(found[i]));
        i += 1;
    }
    proof {
        assert(string_texts(titled@) =~= all_capitalized(words(stem@)));
    }
    join_words(&titled)
}

/// `text` with a hyphen in place of every space.
pub fn dash_spaces(text: &str) -> (dashes: String)
    ensures
        dashes@ == dashed(text@),
{
    let mut dashes = String::new();
    let mut rest = text;
    let mut finished = false;
    proof {
        assert(dashes@ + dashed(rest@) =~= dashed(text@));
    }
    while !finished
        invariant
            !finished ==> dashes@ + dashed(rest@) == dashed(text@),
            finished ==> dashes@ == dashed(text@),
        decreases
                (if finished {
                    0
                } else {
                    rest@.len() + 1
                }),
    {
        let ghost before = dashes@;
        match split_first(rest, ' ') {
            Some((head, tail)) => {
                dashes.append(head);
                dashes.append("-");
                proof {
                    reveal_strlit("-");
                    lemma_find(rest@, ' ');
                    assert("-"@ =~= seq!['-']);
                    assert(dashed(rest@) =~= head@ + seq!['-'] + dashed(tail@));
                    assert(dashes@ + dashed(tail@) =~= before + dashed(rest@));
                }
                rest = tail;
            },
            None => {
                dashes.append(rest);
                proof {
                    lemma_find(rest@, ' ');
                    assert(dashed(rest@) =~= rest@);
                }
                finished = true;
            },
        }
    }
    dashes
}

/// The identifier that the dashboard uses for the benchmark file with the
/// stem `stem`: the stem in lower case, with a hyphen in place of every
/// space.
pub fn benchmark_id(stem: &str) -> (id: String)
    ensures
        id@ == id_of(stem@),
{
    let lower = lowercase(stem);
    dash_spaces(lower.as_str())
}

/// Whether `s` starts with `prefix`.
fn has_prefix(s: &str, prefix: &str) -> (answer: bool)
    ensures
        answer == starts_with(s@, prefix@),
{
    let mut left = s;
    let mut right = prefix;
    let ghost mut k: int = 0;
    proof {
        assert(s@.skip(0) =~= s@);
        assert(prefix@.skip(0) =~= prefix@);
    }
    while !right.is_empty()
        invariant
            0 <= k <= prefix@.len(),
            k <= s@.len(),
            left@ == s@.skip(k),
            right@ == prefix@.skip(k),
            s@.take(k) == prefix@.take(k),
        decreases right@.len(),
    {
        let (expected, right_tail) = match split_first_char(right) {
            Some(parts) => parts,
            None => {
                return false;
            },
        };
        match split_first_char(left) {
            Some((found, left_tail)) => {
                if found != expected {
                    proof {
                        if starts_with(s@, prefix@) {
                            assert(s@.take(prefix@.len() as int)[k] == prefix@[k]);
                        }
                    }
                    return false;
                }
                proof {
                    assert(s@.take(k + 1) =~= s@.take(k).push(found));
                    assert(prefix@.take(k + 1) =~= prefix@.take(k).push(expected));
                    assert(left_tail@ =~= s@.skip(k + 1));
                    assert(right_tail@ =~= prefix@.skip(k + 1));
                    k = k + 1;
                }
                left = left_tail;
                right = right_tail;
            },
            None => {
                return false;
            },
        }
    }
    proof {
        assert(prefix@.take(k) =~= prefix@);
    }
    true
}

/// Whether `needle` occurs in `s`.
fn contains(s: &str, needle: &str) -> (answer: bool)
    ensures
        answer == occurs_in(needle@, s@),
{
    let mut rest = s;
    let ghost mut k: int = 0;
    proof {
        assert(s@.skip(0) =~= s@);
    }
    loop
        invariant
            0 <= k <= s@.len(),
            rest@ == s@.skip(k),
            forall|i: int| 0 <= i < k ==> !#[trigger] starts_with(s@.skip(i), needle@),
        decreases rest@.len(),
    {
        if has_prefix(rest, needle) {
            return true;
        }
        match split_first_char(rest) {
            Some((_, tail)) => {
                proof {
                    assert(tail@ =~= s@.skip(k + 1));
                    k = k + 1;
                }
                rest = tail;
            },
            None => {
                return false;
            },
        }
    }
}

/// Whether the dashboard takes in a file: its extension is `json`, and
/// `benchmark-report` occurs nowhere in its path.
pub fn is_benchmark_result(extension: Option<&str>, path: &str) -> (answer: bool)
    ensures
        answer == takes_in(
            match extension {
                Some(e) => Some(e@),
                None => None,
            },
            path@,
        ),
{
    match extension {
        Some(e) => same_text(e, "json") && !contains(path, "benchmark-report"),
        None => false,
    }
}

/// The dashboard page up to the place where the time of its making stands.
pub const PAGE_HEAD: &'static str = r#"<!DOCTYPE html>
<html lang="en">
<head>
    <meta charset="UTF-8">
    <meta name="viewport" content="width=device-width, initial-scale=1.0">
    <title>Rust Performance Bible - Benchmark Dashboard</title>
    <link href="https://cdn.jsdelivr.net/npm/tailwindcss@2.2.19/dist/tailwind.min.css" rel="stylesheet">
    <script src="https://cdn.jsdelivr.net/npm/chart.js"></script>
    <style>
        .fade-in { animation: fadeIn 0.5s; }
        @keyframes fadeIn { from { opacity: 0; } to { opacity: 1; } }
        .chart-container {
            position: relative;
            height: 300px;
            width: 100%;
        }
    </style>
</head>
<body class="bg-gray-100">
    <div class="container mx-auto px-4 py-8">
        <header class="mb-8">
            <h1 class="text-3xl font-bold text-gray-800">Rust Performance Bible</h1>
            <p class="text-gray-600">Benchmark Dashboard - Generated at <span id="timestamp">"#;

/// The dashboard page after the place where the time of its making stands.
pub const PAGE_TAIL: &'static str = r#"</span></p>
        </header>
        
        <div id="content" class="space-y-8">
            <!-- Benchmark reports will be inserted here -->
        </div>
        
        <footer class="mt-12 text-center text-sm text-gray-500">
            <p>Generated by GitHub Actions - Rust Performance Bible</p>
        </footer>
    </div>
    
    <script>
        // Update timestamp
        document.getElementById('timestamp').textContent = new Date().toISOString();
        
        // Load benchmark data
        async function loadBenchmarks() {
            try {
                const response = await fetch('data/benchmarks.json');
                if (!response.ok) {
                    throw new Error(`HTTP error! status: ${response.status}`);
                }
                const data = await response.json();
                
                if (!Array.isArray(data)) {
                    throw new Error('Invalid benchmark data format');
                }
                
                const content = document.getElementById('content');
                
                if (data.length === 0) {
                    content.innerHTML = `
                        <div class="bg-yellow-50 border-l-4 border-yellow-400 p-4">
                            <p class="text-sm text-yellow-700">
                                No benchmark data available. Run benchmarks to generate data.
                            </p>
                        </div>
                    `;
                    return;
                }
                
                data.forEach(benchmark => {
                    if (!benchmark.results || !benchmark.results.length) return;
                    
                    const section = document.createElement('div');
                    section.className = 'bg-white rounded-lg shadow p-6 fade-in';
                    
                    // Generate table rows
                    const tableRows = benchmark.results.map(result => `
                        <tr class="border-t border-gray-200">
                            <td class="py-2 px-4">${result.name}</td>
                            <td class="py-2 px-4 text-right">${result.mean.toFixed(2)} ${result.unit}</td>
                            <td class="py-2 px-4 text-right">
                                ${result.throughput ? result.throughput.toFixed(2) + ' ops/s' : 'N/A'}
                            </td>
                        </tr>
                    `).join('');
                    
                    section.innerHTML = `
                        <h2 class="text-xl font-semibold mb-4">${benchmark.name}</h2>
                        <div class="overflow-x-auto mb-6">
                            <table class="min-w-full bg-white">
                                <thead>
                                    <tr class="bg-gray-100">
                                        <th class="py-2 px-4 text-left">Test</th>
                                        <th class="py-2 px-4 text-right">Mean Time</th>
                                        <th class="py-2 px-4 text-right">Throughput</th>
                                    </tr>
                                </thead>
                                <tbody>${tableRows}</tbody>
                            </table>
                        </div>
                        <div class="chart-container">
                            <canvas id="${benchmark.id}-chart"></canvas>
                        </div>
                    `;
                    
                    content.appendChild(section);
                    
                    // Create chart
                    setTimeout(() => {
                        const ctx = document.getElementById(`${benchmark.id}-chart`).getContext('2d');
                        new Chart(ctx, {
                            type: 'bar',
                            data: {
                                labels: benchmark.results.map(r => r.name),
                                datasets: [{
                                    label: 'Mean Time (lower is better)',
                                    data: benchmark.results.map(r => r.mean),
                                    backgroundColor: 'rgba(79, 70, 229, 0.6)',
                                    borderColor: 'rgba(79, 70, 229, 1)',
                                    borderWidth: 1
                                }]
                            },
                            options: {
                                responsive: true,
                                maintainAspectRatio: false,
                                scales: {
                                    y: {
                                        beginAtZero: true,
                                        title: {
                                            display: true,
                                            text: 'Time (' + (benchmark.results[0]?.unit || 'ns') + ')'
                                        }
                                    }
                                },
                                plugins: {
                                    title: {
                                        display: true,
                                        text: 'Performance Comparison'
                                    },
                                    legend: {
                                        display: false
                                    }
                                }
                            }
                        });
                    }, 100);
                });
            } catch (error) {
                console.error('Error loading benchmark data:', error);
                document.getElementById('content').innerHTML = `
                    <div class="bg-red-50 border-l-4 border-red-400 p-4">
                        <div class="flex">
                            <div class="flex-shrink-0">
                                <svg class="h-5 w-5 text-red-400" viewBox="0 0 20 20" fill="currentColor">
                                    <path fill-rule="evenodd" d="M10 18a8 8 0 100-16 8 8 0 000 16zM8.707 7.293a1 1 0 00-1.414 1.414L8.586 10l-1.293 1.293a1 1 0 101.414 1.414L10 11.414l1.293 1.293a1 1 0 001.414-1.414L11.414 10l1.293-1.293a1 1 0 00-1.414-1.414L10 8.586 8.707 7.293z" clip-rule="evenodd" />
                                </svg>
                            </div>
                            <div class="ml-3">
                                <p class="text-sm text-red-700">
                                    Error loading benchmark data. Please check the GitHub Actions logs for more details.
                                </p>
                            </div>
                        </div>
                    </div>
                `;
            }
        }
        
        // Initialize the dashboard when the page loads
        document.addEventListener('DOMContentLoaded', loadBenchmarks);
    </script>
</body>
</html>"#;

/// The dashboard page for a dashboard made at the time `timestamp`. The page
/// loads the benchmark data when it is shown.
pub fn index_page(timestamp: &str) -> (page: String)
    ensures
        page@ == PAGE_HEAD@ + timestamp@ + PAGE_TAIL@,
{
    let mut page = String::new();
    page.append(PAGE_HEAD);
    page.append(timestamp);
    page.append(PAGE_TAIL);
    page
}

/// The dashboard page for a dashboard made at the moment `nanos` nanoseconds
/// after the second `secs`, counted from the start of 1970 in UTC: the page
/// of [`index_page`] with that moment written as RFC 3339 asks. Gives `None`
/// where no moment has these numbers.
pub fn index_page_at(secs: i64, nanos: u32) -> (page: Option<String>)
    ensures
        match page {
            Some(p) => rfc3339_of(secs as int, nanos as int) matches Some(t) && p@ == PAGE_HEAD@
                + t + PAGE_TAIL@,
            None => rfc3339_of(secs as int, nanos as int) is None,
        },
{
    match rfc3339(secs, nanos) {
        Some(timestamp) => Some(index_page(timestamp.as_str())),
        None => None,
    }
}

/// The name under which the dashboard keeps its copy of the benchmark file
/// with the stem `stem`.
pub fn data_file_name(stem: &str) -> (name: String)
    ensures
        name@ == stem@ + ".json"@,
{
    let mut name = String::new();
    name.append(stem);
    name.append(".json");
    name
}

} // verus!
