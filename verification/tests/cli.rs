use light_vector_db::cli::{self, Command, Parsed, ValueSource};
use light_vector_db::text::{chars_of, parse_number, split_words, NumberError};
use light_vector_db::{AnnParams, Encoding, IndexKind, MmapDb, VectorDb, F32};
use std::collections::BTreeMap;

fn strings(words: &[&str]) -> Vec<String> {
    words.iter().map(|w| w.to_string()).collect()
}

fn value(source: ValueSource) -> Result<String, String> {
    match source {
        ValueSource::Inline(text) => Ok(text),
        ValueSource::File(path) => Err(format!("no file {path}")),
    }
}

fn vector(source: ValueSource) -> Result<Vec<F32>, String> {
    let content = value(source)?;
    let words = split_words(&content);
    let values = words
        .iter()
        .map(|word| word.parse::<f32>().ok())
        .map(|value| value.map(|x| F32::from_bits(x.to_bits())))
        .collect();
    cli::parse_vector(&words, &values)
}

/// The tool over files in memory.
struct Tool {
    files: BTreeMap<String, Vec<u8>>,
}

impl Tool {
    fn new() -> Self {
        Tool {
            files: BTreeMap::new(),
        }
    }

    fn load(&self, file: &str) -> Result<VectorDb, String> {
        let bytes = self.files.get(file).ok_or("no such file")?;
        VectorDb::from_bytes(bytes).map_err(|e| e.message())
    }

    fn save(&mut self, file: &str, db: &VectorDb) {
        self.files.insert(file.to_string(), db.to_bytes());
    }

    fn run(&mut self, words: &[&str]) -> Result<String, String> {
        let args = strings(words);
        let command = cli::command(&args);
        let rest = if args.is_empty() { &args[..] } else { &args[1..] };
        match command {
            Command::Create => {
                let q = cli::create(rest)?;
                let mut db =
                    VectorDb::with_index(q.dim, q.index_kind).map_err(|e| e.message())?;
                db.set_encoding(q.encoding);
                self.save(&q.file, &db);
                Ok(String::new())
            }
            Command::Insert => {
                let v = vector(cli::insert_vector(rest)?)?;
                let q = cli::insert(rest, v)?;
                let mut db = self.load(&q.file)?;
                let done = if q.upsert {
                    db.upsert(q.record)
                } else {
                    db.insert(q.record)
                };
                done.map_err(|e| e.message())?;
                self.save(&q.file, &db);
                Ok(String::new())
            }
            Command::Search => {
                let v = vector(cli::search_vector(rest)?)?;
                let filters = cli::search_filters(rest)?
                    .into_iter()
                    .map(value)
                    .collect::<Result<Vec<String>, String>>()?;
                let q = cli::search(rest, v, &filters)?;
                let hits = if q.mmap {
                    let bytes = self.files.get(&q.file).ok_or("no such file")?;
                    MmapDb::open(bytes)
                        .and_then(|db| db.search_filtered(&q.query, q.limit, &q.filter))
                } else {
                    self.load(&q.file)?
                        .search_filtered(&q.query, q.limit, &q.filter)
                }
                .map_err(|e| e.message())?;
                let lines: Vec<String> = hits
                    .iter()
                    .map(|h| format!("id={} {}", h.record.id, h.record.text))
                    .collect();
                Ok(lines.join("\n"))
            }
            Command::Delete => {
                let q = cli::delete(rest)?;
                let mut db = self.load(&q.file)?;
                db.delete(q.id).map_err(|e| e.message())?;
                self.save(&q.file, &db);
                Ok(format!("{} records", db.len()))
            }
            Command::Compact => {
                let file = cli::file_argument(rest)?;
                let mut db = self.load(&file)?;
                db.compact().map_err(|e| e.message())?;
                self.save(&file, &db);
                Ok(String::new())
            }
            Command::Stats => {
                let file = cli::file_argument(rest)?;
                let db = self.load(&file)?;
                Ok(format!(
                    "records:   {}\ndimension: {}\nindex:     {}",
                    db.len(),
                    db.dimension().map_or("unset".to_string(), |d| d.to_string()),
                    cli::index_kind_label(db.index_kind())
                ))
            }
            Command::Help => Ok("usage".to_string()),
            Command::Unknown => Err(cli::unknown_command(words[0], "usage")),
            Command::Export | Command::Import => Err("not here".to_string()),
        }
    }
}

#[test]
fn create_insert_search_stats_flow() {
    let mut tool = Tool::new();
    tool.run(&["create", "db", "--dim", "3"]).unwrap();
    tool.run(&[
        "insert",
        "db",
        "--id",
        "1",
        "--vector",
        "1,0,0",
        "--text",
        "first",
        "--meta",
        "topic=rust",
    ])
    .unwrap();
    tool.run(&[
        "insert", "db", "--id", "2", "--vector", "0,0,1", "--text", "second",
    ])
    .unwrap();

    // Nearest to [0.9, 0, 0.1] is record 1.
    let out = tool
        .run(&["search", "db", "--vector", "0.9,0,0.1", "-k", "1"])
        .unwrap();
    assert!(out.contains("id=1"), "unexpected search output: {out}");

    // Metadata filter narrows to the matching record.
    let out = tool
        .run(&[
            "search",
            "db",
            "--vector",
            "0,0,1",
            "--filter",
            "topic=rust",
        ])
        .unwrap();
    assert!(
        out.contains("id=1") && !out.contains("id=2"),
        "filter output: {out}"
    );

    let out = tool.run(&["stats", "db"]).unwrap();
    assert!(out.contains("records:   2"), "stats output: {out}");
    assert!(out.contains("dimension: 3"), "stats output: {out}");
}

#[test]
fn duplicate_insert_fails_without_upsert() {
    let mut tool = Tool::new();
    tool.run(&["create", "db", "--dim", "2"]).unwrap();
    tool.run(&["insert", "db", "--id", "1", "--vector", "1,0"])
        .unwrap();

    let err = tool
        .run(&["insert", "db", "--id", "1", "--vector", "0,1"])
        .unwrap_err();
    assert!(err.contains("already exists"), "stderr: {err}");

    // With --upsert it succeeds.
    tool.run(&["insert", "db", "--id", "1", "--vector", "0,1", "--upsert"])
        .unwrap();
}

#[test]
fn delete_and_compact_flow() {
    let mut tool = Tool::new();
    tool.run(&["create", "db", "--dim", "2", "--index", "hnsw"])
        .unwrap();
    tool.run(&[
        "insert", "db", "--id", "1", "--vector", "1,0", "--text", "keep",
    ])
    .unwrap();
    tool.run(&[
        "insert", "db", "--id", "2", "--vector", "0,1", "--text", "drop",
    ])
    .unwrap();

    let out = tool.run(&["delete", "db", "--id", "2"]).unwrap();
    assert!(out.contains("1 records"), "delete output: {out}");

    // The deleted record is gone from search and stats.
    let out = tool
        .run(&["search", "db", "--vector", "0,1", "-k", "5"])
        .unwrap();
    assert!(!out.contains("id=2"), "deleted record still found: {out}");
    let out = tool.run(&["stats", "db"]).unwrap();
    assert!(out.contains("records:   1"), "stats after delete: {out}");

    tool.run(&["compact", "db"]).unwrap();
}

#[test]
fn search_mmap_flag_works() {
    let mut tool = Tool::new();
    tool.run(&["create", "db", "--dim", "3"]).unwrap();
    tool.run(&[
        "insert", "db", "--id", "1", "--vector", "1,0,0", "--text", "near",
    ])
    .unwrap();
    tool.run(&[
        "insert", "db", "--id", "2", "--vector", "0,0,1", "--text", "far",
    ])
    .unwrap();

    let out = tool
        .run(&["search", "db", "--vector", "0.9,0,0.1", "-k", "1", "--mmap"])
        .unwrap();
    assert!(out.contains("id=1"), "mmap search output: {out}");
}

#[test]
fn missing_args_fail_cleanly() {
    let mut tool = Tool::new();
    let err = tool.run(&["create", "/tmp/whatever.lvdb"]).unwrap_err();
    assert!(err.contains("--dim"), "stderr: {err}");

    let err = tool.run(&["frobnicate"]).unwrap_err();
    assert!(err.contains("unknown command"), "stderr: {err}");
    assert_eq!(err, "unknown command 'frobnicate'\n\nusage");
}

#[test]
fn arguments_are_told_apart() {
    let args = Parsed::parse(
        &strings(&[
            "one", "--a", "1", "--b=2=3", "--yes", "two", "-k", "7", "--a", "4", "-x",
        ]),
        &["yes"],
    )
    .unwrap();
    assert_eq!(args.positional(0, "first").unwrap(), "one");
    assert_eq!(args.positional(1, "second").unwrap(), "two");
    assert_eq!(args.positional(2, "third").unwrap(), "-x");
    assert_eq!(
        args.positional(3, "fourth").unwrap_err(),
        "missing required argument <fourth>"
    );
    assert_eq!(args.get("a"), Some("4"));
    assert_eq!(args.get_all("a"), strings(&["1", "4"]));
    assert_eq!(args.get("b"), Some("2=3"));
    assert_eq!(args.required("limit").unwrap(), "7");
    assert_eq!(args.required("c").unwrap_err(), "missing required flag --c");
    assert!(args.flag("yes") && !args.flag("no"));
    assert_eq!(args.get("yes"), Some("true"));
    assert!(args.get_all("no").is_empty());
    assert_eq!(
        Parsed::parse(&strings(&["--a"]), &[]).unwrap_err(),
        "flag --a needs a value"
    );
    assert_eq!(
        Parsed::parse(&strings(&["-k"]), &[]).unwrap_err(),
        "flag -k needs a value"
    );
}

#[test]
fn kinds_and_encodings_have_names() {
    assert_eq!(cli::parse_index_kind("exact").unwrap(), IndexKind::Exact);
    assert_eq!(
        cli::parse_index_kind("hnsw").unwrap(),
        IndexKind::Hnsw(AnnParams::default())
    );
    assert_eq!(
        cli::parse_index_kind("ivf").unwrap_err(),
        "unknown index kind 'ivf' (expected exact or hnsw)"
    );
    assert_eq!(cli::index_kind_label(IndexKind::Exact), "exact");
    assert_eq!(
        cli::index_kind_label(IndexKind::Hnsw(AnnParams::default())),
        "hnsw(M=16, ef_construction=64, ef_search=64)"
    );
    assert_eq!(cli::parse_encoding("int8").unwrap(), Encoding::ScalarU8);
    assert_eq!(cli::parse_encoding("float32").unwrap(), Encoding::Float32);
    assert_eq!(
        cli::parse_encoding("int4").unwrap_err(),
        "unknown encoding 'int4' (expected float32 or int8)"
    );
}

#[test]
fn requests_are_read_from_arguments() {
    let q = cli::create(&strings(&["f", "--dim", "8", "--encoding", "int8"])).unwrap();
    assert_eq!(
        (q.file.as_str(), q.dim, q.index_kind, q.encoding),
        ("f", 8, IndexKind::Exact, Encoding::ScalarU8)
    );
    let source = cli::search_vector(&strings(&["f", "--vector", "@v.txt"])).unwrap();
    assert!(matches!(source, ValueSource::File(path) if path == "v.txt"));
    let sources =
        cli::search_filters(&strings(&["f", "--vector", "1", "--filter", "@p", "--filter", "a=b"]))
            .unwrap();
    assert!(matches!(&sources[0], ValueSource::File(path) if path == "p"));
    assert!(matches!(&sources[1], ValueSource::Inline(text) if text == "a=b"));
    let q = cli::search(
        &strings(&["f", "--vector", "1"]),
        vec![],
        &strings(&["a=b=c", "d="]),
    )
    .unwrap();
    assert_eq!((q.limit, q.mmap, q.filter.len()), (10, false, 2));
    assert_eq!(q.filter.get(&"a".to_string()).unwrap(), "b=c");
    assert_eq!(
        cli::search(&strings(&["f", "--vector", "1"]), vec![], &strings(&["ab"])).unwrap_err(),
        "--filter expects key=value, got 'ab'"
    );
    assert_eq!(
        cli::insert(&strings(&["f", "--id", "1", "--vector", "1", "--meta", "x"]), vec![])
            .unwrap_err(),
        "--meta expects key=value, got 'x'"
    );
    assert_eq!(
        cli::search(&strings(&["f", "--vector", "1", "-k", "ten"]), vec![], &vec![]).unwrap_err(),
        "invalid digit found in string"
    );
    assert_eq!(
        cli::search_filters(&strings(&["f", "--vector", "1", "-k", ""])).unwrap_err(),
        "cannot parse integer from empty string"
    );
    let q = cli::insert(
        &strings(&["f", "--id", "+12", "--vector", "1", "--meta", "k=v", "--text", "hi"]),
        vec![],
    )
    .unwrap();
    assert_eq!((q.record.id, q.record.text.as_str(), q.upsert), (12, "hi", false));
    assert_eq!(
        cli::export(&strings(&["db", "out"])).unwrap(),
        ("db".to_string(), "out".to_string())
    );
    assert_eq!(
        cli::export(&strings(&["db"])).unwrap_err(),
        "missing required argument <out.json>"
    );
    assert_eq!(
        cli::import(&strings(&["in", "db"])).unwrap(),
        ("in".to_string(), "db".to_string())
    );
    assert_eq!(
        cli::import(&strings(&[])).unwrap_err(),
        "missing required argument <in.json>"
    );
}

#[test]
fn a_word_that_is_no_number_is_named() {
    let inline = |text: &str| vector(ValueSource::Inline(text.to_string()));
    assert_eq!(inline("1 x y").unwrap_err(), "invalid vector value 'x'");
    let bits: Vec<u32> = inline("[1.5, -2]").unwrap().iter().map(|x| x.to_bits()).collect();
    assert_eq!(bits, vec![1.5f32.to_bits(), (-2.0f32).to_bits()]);
    assert!(inline("").unwrap().is_empty());
}

#[test]
fn commands_have_names() {
    for (name, command) in [
        ("create", Command::Create),
        ("insert", Command::Insert),
        ("search", Command::Search),
        ("delete", Command::Delete),
        ("compact", Command::Compact),
        ("stats", Command::Stats),
        ("export", Command::Export),
        ("import", Command::Import),
        ("help", Command::Help),
        ("--help", Command::Help),
        ("-h", Command::Help),
        ("Help", Command::Unknown),
    ] {
        assert_eq!(cli::command(&strings(&[name, "x"])), command);
    }
    assert_eq!(cli::command(&[]), Command::Help);
}

#[test]
fn numbers_parse_as_in_the_standard_library() {
    for text in [
        "", "0", "7", "+7", "-7", "+", "-", "007", "12a", "a", "18446744073709551615",
        "18446744073709551616", "99999999999999999999x", "1 ", "٣",
    ] {
        let expected = text.parse::<u64>();
        match parse_number(text, u64::MAX) {
            Ok(n) => assert_eq!(expected, Ok(n), "{text}"),
            Err(e) => assert_eq!(expected.unwrap_err().to_string(), e.message(), "{text}"),
        }
    }
    assert_eq!(parse_number("256", 255), Err(NumberError::TooLarge));
    assert_eq!(parse_number("255", 255), Ok(255));
    assert_eq!(parse_number("9", 5), Err(NumberError::TooLarge));
}

#[test]
fn vectors_split_at_commas_brackets_and_white_space() {
    assert_eq!(
        split_words("[0.1, 0.2,,\t3]\u{a0}\u{3000}é\n"),
        strings(&["0.1", "0.2", "3", "é"])
    );
    assert!(split_words(" ,[]").is_empty());
    // The separators are those of the standard library.
    for c in (0..0x11_0000u32).filter_map(char::from_u32) {
        let expected = c == ',' || c == '[' || c == ']' || c.is_whitespace();
        if c < '\u{4000}' || c.is_whitespace() {
            assert_eq!(split_words(&c.to_string()).is_empty(), expected, "{c:?}");
        }
    }
    assert_eq!(chars_of("aé🦀"), vec!['a', 'é', '🦀']);
}
