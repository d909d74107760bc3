use perf_patterns::dashboard::{
    benchmark_id, dash_spaces, data_file_name, display_name, index_page, index_page_at,
    is_benchmark_result, join_words, stem_words, with_first_replaced, PAGE_HEAD, PAGE_TAIL,
};
use perf_patterns::text::is_white_space_char;

fn title_by_std(stem: &str) -> String {
    stem.replace('_', " ")
        .split_whitespace()
        .map(|word| {
            let mut chars = word.chars();
            match chars.next() {
                None => String::new(),
                Some(first) => first.to_uppercase().chain(chars).collect(),
            }
        })
        .collect::<Vec<_>>()
        .join(" ")
}

fn id_by_std(stem: &str) -> String {
    stem.to_lowercase().replace(' ', "-")
}

const STEMS: [&str; 14] = [
    "memory_patterns",
    "log_parsing",
    "",
    "_",
    "__leading__and__trailing__",
    "already Title",
    "mixed_case  with\ttabs\nand lines",
    "\u{e9}t\u{e9}_fran\u{e7}ais",
    "\u{df}eta stra\u{df}e",
    "\u{fb01}ne_print",
    "\u{03a3}\u{0399}\u{03a3}\u{03a5}\u{03a6}\u{039f}\u{03a3}",
    "a\u{00A0}b\u{2003}c\u{3000}d",
    "\u{4e16}\u{754c}_caf\u{e9} \u{1F980}",
    "UPPER CASE_STEM",
];

#[test]
fn display_name_capitalizes_words() {
    assert_eq!(display_name("memory_patterns"), "Memory Patterns");
    assert_eq!(display_name("log_parsing"), "Log Parsing");
    assert_eq!(display_name("__a__b c__"), "A B C");
    assert_eq!(display_name(""), "");
    assert_eq!(display_name("already Title"), "Already Title");
    // An upper-case form may be longer than one character.
    assert_eq!(display_name("\u{df}eta"), "SSeta");
}

#[test]
fn display_name_agrees_with_the_standard_library() {
    for stem in STEMS {
        assert_eq!(display_name(stem), title_by_std(stem), "{:?}", stem);
    }
}

#[test]
fn benchmark_id_lowers_and_dashes() {
    assert_eq!(benchmark_id("Memory Patterns"), "memory-patterns");
    assert_eq!(benchmark_id("memory_patterns"), "memory_patterns");
    assert_eq!(benchmark_id("  A  B "), "--a--b-");
    assert_eq!(benchmark_id(""), "");
    // Only the space becomes a hyphen, no other white space.
    assert_eq!(benchmark_id("A\tB"), "a\tb");
}

#[test]
fn benchmark_id_agrees_with_the_standard_library() {
    for stem in STEMS {
        assert_eq!(benchmark_id(stem), id_by_std(stem), "{:?}", stem);
    }
}

#[test]
fn benchmark_results_are_json_files_that_are_no_reports() {
    assert!(is_benchmark_result(Some("json"), "benchmark-results/memory_patterns.json"));
    assert!(is_benchmark_result(Some("json"), ""));
    assert!(!is_benchmark_result(None, "benchmark-results/memory_patterns"));
    assert!(!is_benchmark_result(Some("JSON"), "benchmark-results/a.JSON"));
    assert!(!is_benchmark_result(Some("jso"), "a.jso"));
    assert!(!is_benchmark_result(Some("jsonl"), "a.jsonl"));
    assert!(!is_benchmark_result(Some(""), "a."));
    assert!(!is_benchmark_result(Some("json"), "benchmark-results/benchmark-report.json"));
    assert!(!is_benchmark_result(Some("json"), "benchmark-report/a.json"));
    assert!(!is_benchmark_result(Some("json"), "x/my-benchmark-report-2/a.json"));
    assert!(!is_benchmark_result(Some("json"), "benchmark-report"));
    assert!(is_benchmark_result(Some("json"), "benchmark-repor/t.json"));
    assert!(is_benchmark_result(Some("json"), "benchmark_report.json"));
    assert!(is_benchmark_result(Some("json"), "\u{e9}/benchmark-repor\u{e9}t.json"));
    assert!(!is_benchmark_result(Some("json"), "\u{e9}\u{1F980}benchmark-report\u{4e16}.json"));
}

#[test]
fn white_space_is_what_the_standard_library_calls_white_space() {
    let mut count = 0;
    for code in 0u32..=0x10FFFF {
        if let Some(c) = char::from_u32(code) {
            assert_eq!(is_white_space_char(c), c.is_whitespace(), "U+{:04X}", code);
            if is_white_space_char(c) {
                count += 1;
            }
        }
    }
    assert_eq!(count, 25);
}

#[test]
fn data_file_name_adds_the_extension() {
    assert_eq!(data_file_name("memory_patterns"), "memory_patterns.json");
    assert_eq!(data_file_name(""), ".json");
    assert_eq!(data_file_name("unknown"), "unknown.json");
}

#[test]
fn index_page_carries_the_timestamp() {
    let page = index_page("2025-01-01T12:00:00+00:00");
    assert!(page.starts_with("<!DOCTYPE html>"));
    assert!(page.ends_with("</html>"));
    assert!(page.contains("<span id=\"timestamp\">2025-01-01T12:00:00+00:00</span>"));
    assert!(page.contains(".fade-in { animation: fadeIn 0.5s; }"));
    assert!(page.contains("throw new Error(`HTTP error! status: ${response.status}`);"));
    assert_eq!(page, [PAGE_HEAD, "2025-01-01T12:00:00+00:00", PAGE_TAIL].concat());
    assert_eq!(index_page(""), [PAGE_HEAD, PAGE_TAIL].concat());
}

#[test]
fn index_page_is_the_formatted_template() {
    for timestamp in ["2025-01-01T12:00:00+00:00", "", "{}", "{{braces}}"] {
        let expected = format!(r#"<!DOCTYPE html>
<html lang="en">
<head>
    <meta charset="UTF-8">
    <meta name="viewport" content="width=device-width, initial-scale=1.0">
    <title>Rust Performance Bible - Benchmark Dashboard</title>
    <link href="https://cdn.jsdelivr.net/npm/tailwindcss@2.2.19/dist/tailwind.min.css" rel="stylesheet">
    <script src="https://cdn.jsdelivr.net/npm/chart.js"></script>
    <style>
        .fade-in {{ animation: fadeIn 0.5s; }}
        @keyframes fadeIn {{ from {{ opacity: 0; }} to {{ opacity: 1; }} }}
        .chart-container {{
            position: relative;
            height: 300px;
            width: 100%;
        }}
    </style>
</head>
<body class="bg-gray-100">
    <div class="container mx-auto px-4 py-8">
        <header class="mb-8">
            <h1 class="text-3xl font-bold text-gray-800">Rust Performance Bible</h1>
            <p class="text-gray-600">Benchmark Dashboard - Generated at <span id="timestamp">{}</span></p>
        </header>
        
        <div id="content" class="space-y-8">
            <!-- Benchmark reports will be inserted here -->
        </div>
        
        <footer class="mt-12 text-center text-sm text-gray-500">
            <p>Generated by GitHub Actions - Rust Performance Bible</p>
        </footer>
    </div>
    
    <script>
        // Update timestamp
        document.getElementById('timestamp').textContent = new Date().toISOString();
        
        // Load benchmark data
        async function loadBenchmarks() {{
            try {{
                const response = await fetch('data/benchmarks.json');
                if (!response.ok) {{
                    throw new Error(`HTTP error! status: ${{response.status}}`);
                }}
                const data = await response.json();
                
                if (!Array.isArray(data)) {{
                    throw new Error('Invalid benchmark data format');
                }}
                
                const content = document.getElementById('content');
                
                if (data.length === 0) {{
                    content.innerHTML = `
                        <div class="bg-yellow-50 border-l-4 border-yellow-400 p-4">
                            <p class="text-sm text-yellow-700">
                                No benchmark data available. Run benchmarks to generate data.
                            </p>
                        </div>
                    `;
                    return;
                }}
                
                data.forEach(benchmark => {{
                    if (!benchmark.results || !benchmark.results.length) return;
                    
                    const section = document.createElement('div');
                    section.className = 'bg-white rounded-lg shadow p-6 fade-in';
                    
                    // Generate table rows
                    const tableRows = benchmark.results.map(result => `
                        <tr class="border-t border-gray-200">
                            <td class="py-2 px-4">${{result.name}}</td>
                            <td class="py-2 px-4 text-right">${{result.mean.toFixed(2)}} ${{result.unit}}</td>
                            <td class="py-2 px-4 text-right">
                                ${{result.throughput ? result.throughput.toFixed(2) + ' ops/s' : 'N/A'}}
                            </td>
                        </tr>
                    `).join('');
                    
                    section.innerHTML = `
                        <h2 class="text-xl font-semibold mb-4">${{benchmark.name}}</h2>
                        <div class="overflow-x-auto mb-6">
                            <table class="min-w-full bg-white">
                                <thead>
                                    <tr class="bg-gray-100">
                                        <th class="py-2 px-4 text-left">Test</th>
                                        <th class="py-2 px-4 text-right">Mean Time</th>
                                        <th class="py-2 px-4 text-right">Throughput</th>
                                    </tr>
                                </thead>
                                <tbody>${{tableRows}}</tbody>
                            </table>
                        </div>
                        <div class="chart-container">
                            <canvas id="${{benchmark.id}}-chart"></canvas>
                        </div>
                    `;
                    
                    content.appendChild(section);
                    
                    // Create chart
                    setTimeout(() => {{
                        const ctx = document.getElementById(`${{benchmark.id}}-chart`).getContext('2d');
                        new Chart(ctx, {{
                            type: 'bar',
                            data: {{
                                labels: benchmark.results.map(r => r.name),
                                datasets: [{{
                                    label: 'Mean Time (lower is better)',
                                    data: benchmark.results.map(r => r.mean),
                                    backgroundColor: 'rgba(79, 70, 229, 0.6)',
                                    borderColor: 'rgba(79, 70, 229, 1)',
                                    borderWidth: 1
                                }}]
                            }},
                            options: {{
                                responsive: true,
                                maintainAspectRatio: false,
                                scales: {{
                                    y: {{
                                        beginAtZero: true,
                                        title: {{
                                            display: true,
                                            text: 'Time (' + (benchmark.results[0]?.unit || 'ns') + ')'
                                        }}
                                    }}
                                }},
                                plugins: {{
                                    title: {{
                                        display: true,
                                        text: 'Performance Comparison'
                                    }},
                                    legend: {{
                                        display: false
                                    }}
                                }}
                            }}
                        }});
                    }}, 100);
                }});
            }} catch (error) {{
                console.error('Error loading benchmark data:', error);
                document.getElementById('content').innerHTML = `
                    <div class="bg-red-50 border-l-4 border-red-400 p-4">
                        <div class="flex">
                            <div class="flex-shrink-0">
                                <svg class="h-5 w-5 text-red-400" viewBox="0 0 20 20" fill="currentColor">
                                    <path fill-rule="evenodd" d="M10 18a8 8 0 100-16 8 8 0 000 16zM8.707 7.293a1 1 0 00-1.414 1.414L8.586 10l-1.293 1.293a1 1 0 101.414 1.414L10 11.414l1.293 1.293a1 1 0 001.414-1.414L11.414 10l1.293-1.293a1 1 0 00-1.414-1.414L10 8.586 8.707 7.293z" clip-rule="evenodd" />
                                </svg>
                            </div>
                            <div class="ml-3">
                                <p class="text-sm text-red-700">
                                    Error loading benchmark data. Please check the GitHub Actions logs for more details.
                                </p>
                            </div>
                        </div>
                    </div>
                `;
            }}
        }}
        
        // Initialize the dashboard when the page loads
        document.addEventListener('DOMContentLoaded', loadBenchmarks);
    </script>
</body>
</html>"#, timestamp);
        assert_eq!(index_page(timestamp), expected);
    }
}

#[test]
fn stem_words_are_the_runs_between_separators() {
    assert_eq!(stem_words("memory_patterns"), vec!["memory", "patterns"]);
    assert_eq!(stem_words("  a__b \t c_"), vec!["a", "b", "c"]);
    assert_eq!(stem_words(""), Vec::<&str>::new());
    assert_eq!(stem_words("_ _"), Vec::<&str>::new());
    assert_eq!(stem_words("one"), vec!["one"]);
    assert_eq!(stem_words("a\u{00A0}b\u{2003}c-d"), vec!["a", "b", "c-d"]);
    for stem in STEMS {
        let replaced = stem.replace('_', " ");
        let expected: Vec<&str> = replaced.split_whitespace().collect();
        assert_eq!(stem_words(stem), expected, "{:?}", stem);
    }
}

#[test]
fn first_character_is_replaced() {
    assert_eq!(with_first_replaced("word", "W"), "Word");
    assert_eq!(with_first_replaced("\u{df}eta", "SS"), "SSeta");
    assert_eq!(with_first_replaced("x", ""), "");
    assert_eq!(with_first_replaced("", "W"), "");
    assert_eq!(with_first_replaced("\u{1F980}crab", "a"), "acrab");
}

#[test]
fn words_are_joined_with_single_spaces() {
    let words = |items: &[&str]| items.iter().map(|s| s.to_string()).collect::<Vec<String>>();
    assert_eq!(join_words(&words(&[])), "");
    assert_eq!(join_words(&words(&["One"])), "One");
    assert_eq!(join_words(&words(&["One", "Two", "Three"])), "One Two Three");
    assert_eq!(join_words(&words(&["", ""])), " ");
}

#[test]
fn spaces_become_hyphens() {
    assert_eq!(dash_spaces("a b"), "a-b");
    assert_eq!(dash_spaces(" a  b "), "-a--b-");
    assert_eq!(dash_spaces(""), "");
    assert_eq!(dash_spaces("no_spaces\there"), "no_spaces\there");
    assert_eq!(dash_spaces("\u{e9} \u{1F980}"), "\u{e9}-\u{1F980}");
}

#[test]
fn index_page_at_writes_the_moment_as_rfc3339() {
    let page = index_page_at(1_431_648_000, 0).unwrap();
    assert_eq!(page, index_page("2015-05-15T00:00:00+00:00"));
    let page = index_page_at(0, 0).unwrap();
    assert_eq!(page, index_page("1970-01-01T00:00:00+00:00"));
    let page = index_page_at(1_735_732_800, 500_000_000).unwrap();
    assert_eq!(page, index_page("2025-01-01T12:00:00.500+00:00"));
    let page = index_page_at(-1, 999_999_999).unwrap();
    assert_eq!(page, index_page("1969-12-31T23:59:59.999999999+00:00"));
    assert!(index_page_at(i64::MAX, 0).is_none());
    assert!(index_page_at(i64::MIN, 0).is_none());
    assert!(index_page_at(0, 2_000_000_000).is_none());
}

#[test]
fn names_agree_with_the_standard_library_on_random_stems() {
    let alphabet = [
        'a', 'B', 'z', '_', '_', ' ', ' ', '\t', '-', '.', '\u{e9}', '\u{df}', '\u{03a3}',
        '\u{00A0}', '\u{2003}', '\u{fb01}', '\u{01c6}', '\u{1F980}', '\u{0130}',
    ];
    let mut state: u64 = 7;
    let mut roll = |sides: usize| {
        state = state.wrapping_mul(6364136223846793005).wrapping_add(1442695040888963407);
        ((state >> 33) as usize) % sides
    };
    for _ in 0..2000 {
        let len = roll(16);
        let stem: String = (0..len).map(|_| alphabet[roll(alphabet.len())]).collect();
        assert_eq!(display_name(&stem), title_by_std(&stem), "{:?}", stem);
        assert_eq!(benchmark_id(&stem), id_by_std(&stem), "{:?}", stem);
    }
}
