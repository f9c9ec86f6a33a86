use json_event_parser::{JsonEvent, SliceJsonParser};
use ndjson_split::lines::{split_tokens, terminate_line, LineSplitter};
use ndjson_split::machine::{Feed, Phase, SplitError, Splitter};
use ndjson_split::source::{ends_with, input_format, InputFormat, UsageError};
use ndjson_split::token::Token;

fn token_of(e: JsonEvent<'_>) -> Token {
    match e {
        JsonEvent::StartObject => Token::StartObject,
        JsonEvent::EndObject => Token::EndObject,
        JsonEvent::StartArray => Token::StartArray,
        JsonEvent::EndArray => Token::EndArray,
        JsonEvent::ObjectKey(k) => Token::ObjectKey(k.into_owned()),
        JsonEvent::String(s) => Token::String(s.into_owned()),
        JsonEvent::Number(n) => Token::Number(n.into_owned()),
        JsonEvent::Boolean(b) => Token::Boolean(b),
        JsonEvent::Null => Token::Null,
        JsonEvent::Eof => Token::Eof,
    }
}

/// The tokens of `text` up to its end, and whether the reader refused it.
fn tokenize(text: &str) -> (Vec<Token>, bool) {
    let mut parser = SliceJsonParser::new(text.as_bytes());
    let mut out = Vec::new();
    loop {
        match parser.parse_next() {
            Ok(JsonEvent::Eof) => {
                out.push(Token::Eof);
                return (out, false);
            }
            Ok(e) => out.push(token_of(e)),
            Err(_) => return (out, true),
        }
    }
}

fn text_of(lines: &[Vec<u8>]) -> String {
    lines.iter().map(|l| String::from_utf8(l.clone()).unwrap()).collect()
}

fn key(k: &str) -> Token {
    Token::ObjectKey(k.to_string())
}

fn num(n: &str) -> Token {
    Token::Number(n.to_string())
}

#[test]
fn scenario_two_records() {
    let (toks, bad) = tokenize(r#"{"d1":{"a":1,"b":[1,2,3]},"d2":{"a":2}}"#);
    assert!(!bad);
    let (lines, r) = split_tokens(&toks);
    assert_eq!(r, Ok(true));
    assert_eq!(text_of(&lines), "{\"a\":1,\"b\":[1,2,3]}\n{\"a\":2}\n");
}

#[test]
fn scenario_empty_outer_object() {
    let (toks, bad) = tokenize("{}");
    assert!(!bad);
    let (lines, r) = split_tokens(&toks);
    assert_eq!(r, Ok(true));
    assert!(lines.is_empty());
}

#[test]
fn scenario_deep_nesting() {
    let (toks, _) = tokenize(r#"{"d1":{"a":{"b":{"c":1}}}}"#);
    let (lines, r) = split_tokens(&toks);
    assert_eq!(r, Ok(true));
    assert_eq!(text_of(&lines), "{\"a\":{\"b\":{\"c\":1}}}\n");
}

#[test]
fn scenario_outer_array() {
    let (toks, _) = tokenize("[1,2,3]");
    let (lines, r) = split_tokens(&toks);
    assert_eq!(r, Err(SplitError::NotAnObject));
    assert!(lines.is_empty());
}

#[test]
fn scenario_trailing_garbage() {
    let (toks, bad) = tokenize(r#"{"d1":{"a":1},"d2":{"b":2}} garbage"#);
    assert!(bad);
    let (lines, r) = split_tokens(&toks);
    assert_eq!(r, Ok(false));
    assert_eq!(text_of(&lines), "{\"a\":1}\n{\"b\":2}\n");
}

#[test]
fn trailing_token_after_outer_object() {
    let toks = vec![
        Token::StartObject,
        key("d1"),
        Token::StartObject,
        Token::EndObject,
        Token::EndObject,
        Token::StartObject,
    ];
    let (lines, r) = split_tokens(&toks);
    assert_eq!(r, Err(SplitError::TrailingContent));
    assert_eq!(text_of(&lines), "{}\n");
}

#[test]
fn one_line_per_key() {
    let (toks, _) = tokenize(r#"{"a":{},"b":{"x":null},"c":{"y":true,"z":false}}"#);
    let (lines, r) = split_tokens(&toks);
    assert_eq!(r, Ok(true));
    assert_eq!(lines.len(), 3);
    assert_eq!(text_of(&lines), "{}\n{\"x\":null}\n{\"y\":true,\"z\":false}\n");
}

#[test]
fn lines_read_back_as_the_records() {
    let doc = r#"{"k1":{"s":"q\"uo\nte","n":-1.5e3,"arr":[{"in":[]},null]},"k2":{"e":{}}}"#;
    let (toks, _) = tokenize(doc);
    let (lines, r) = split_tokens(&toks);
    assert_eq!(r, Ok(true));
    assert_eq!(lines.len(), 2);
    let (first, _) = tokenize(std::str::from_utf8(&lines[0]).unwrap().trim_end());
    let (second, _) = tokenize(std::str::from_utf8(&lines[1]).unwrap().trim_end());
    // the records are tokens 2..=16 and 18..=22 of the document
    assert_eq!(&first[..first.len() - 1], &toks[2..17]);
    assert_eq!(&second[..second.len() - 1], &toks[18..23]);
}

#[test]
fn strings_are_escaped() {
    let toks = vec![
        Token::StartObject,
        key("k"),
        Token::StartObject,
        key("a\"b"),
        Token::String("line\nnext\\".to_string()),
        Token::EndObject,
        Token::EndObject,
        Token::Eof,
    ];
    let (lines, r) = split_tokens(&toks);
    assert_eq!(r, Ok(true));
    assert_eq!(text_of(&lines), "{\"a\\\"b\":\"line\\nnext\\\\\"}\n");
}

#[test]
fn malformed_record_emits_nothing_more() {
    let toks = vec![
        Token::StartObject,
        key("r1"),
        Token::StartObject,
        key("a"),
        num("1"),
        Token::EndObject,
        key("r2"),
        Token::StartObject,
        key("b"),
        Token::StartObject,
        Token::EndObject,
        Token::Eof,
    ];
    let (lines, r) = split_tokens(&toks);
    assert_eq!(r, Err(SplitError::TruncatedRecord));
    assert_eq!(text_of(&lines), "{\"a\":1}\n");
}

#[test]
fn failure_is_final() {
    let mut s = LineSplitter::new();
    assert_eq!(s.push(&Token::StartArray), Err(SplitError::NotAnObject));
    assert_eq!(s.push(&Token::StartObject), Err(SplitError::Stopped));
    assert_eq!(s.push(&key("a")), Err(SplitError::Stopped));
    assert!(!s.is_finished());
}

#[test]
fn resplitting_gives_the_same_lines() {
    let (toks, _) = tokenize(r#"{"d1":{"a":1,"b":[1,2,3]},"d2":{"a":{"c":"x"}},"d3":{}}"#);
    let (lines, r) = split_tokens(&toks);
    assert_eq!(r, Ok(true));
    let mut doc = String::from("{");
    for (i, line) in lines.iter().enumerate() {
        if i > 0 {
            doc.push(',');
        }
        doc.push_str(&format!("\"new{}\":", i));
        doc.push_str(std::str::from_utf8(line).unwrap().trim_end());
    }
    doc.push('}');
    let (toks2, bad) = tokenize(&doc);
    assert!(!bad);
    let (lines2, r2) = split_tokens(&toks2);
    assert_eq!(r2, Ok(true));
    assert_eq!(lines2, lines);
}

#[test]
fn record_must_be_an_object() {
    let (toks, _) = tokenize(r#"{"a":{"x":1},"b":[1]}"#);
    let (lines, r) = split_tokens(&toks);
    assert_eq!(r, Err(SplitError::RecordNotObject));
    assert_eq!(text_of(&lines), "{\"x\":1}\n");
}

#[test]
fn value_where_key_expected() {
    let toks = vec![Token::StartObject, Token::String("x".to_string())];
    let (lines, r) = split_tokens(&toks);
    assert_eq!(r, Err(SplitError::UnexpectedToken));
    assert!(lines.is_empty());
}

#[test]
fn end_of_input_where_key_expected() {
    let toks = vec![Token::StartObject, Token::Eof];
    assert_eq!(split_tokens(&toks).1, Err(SplitError::UnexpectedToken));
}

#[test]
fn writer_refuses_unbalanced_array() {
    let toks = vec![
        Token::StartObject,
        key("k"),
        Token::StartObject,
        key("a"),
        Token::StartArray,
        Token::EndObject,
    ];
    let (lines, r) = split_tokens(&toks);
    assert_eq!(r, Err(SplitError::Unencodable));
    assert!(lines.is_empty());
}

#[test]
fn token_after_done_is_refused() {
    let mut s = LineSplitter::new();
    assert_eq!(s.push(&Token::StartObject), Ok(None));
    assert_eq!(s.push(&Token::EndObject), Ok(None));
    assert_eq!(s.push(&Token::Eof), Ok(None));
    assert!(s.is_finished());
    assert_eq!(s.push(&Token::Eof), Err(SplitError::Stopped));
    assert!(!s.is_finished());
    assert_eq!(s.push(&Token::Eof), Err(SplitError::Stopped));
}

#[test]
fn push_returns_each_line_at_its_closing_brace() {
    let mut s = LineSplitter::new();
    assert_eq!(s.push(&Token::StartObject), Ok(None));
    assert_eq!(s.push(&key("d")), Ok(None));
    assert_eq!(s.push(&Token::StartObject), Ok(None));
    assert_eq!(s.push(&key("v")), Ok(None));
    assert_eq!(s.push(&Token::Boolean(true)), Ok(None));
    assert_eq!(s.push(&Token::EndObject), Ok(Some(b"{\"v\":true}\n".to_vec())));
}

#[test]
fn feed_classifies_tokens() {
    let mut m = Splitter::new();
    assert_eq!(m.feed(&Token::StartObject), Ok(Feed::Outer));
    assert_eq!(m.feed(&key("a")), Ok(Feed::Outer));
    assert_eq!(m.phase, Phase::InRecord { depth: 0 });
    assert_eq!(m.feed(&Token::StartObject), Ok(Feed::Member));
    assert_eq!(m.feed(&Token::StartArray), Ok(Feed::Member));
    assert_eq!(m.feed(&Token::StartObject), Ok(Feed::Member));
    assert_eq!(m.phase, Phase::InRecord { depth: 2 });
    assert_eq!(m.feed(&Token::EndObject), Ok(Feed::Member));
    assert_eq!(m.feed(&Token::EndArray), Ok(Feed::Member));
    assert_eq!(m.feed(&Token::EndObject), Ok(Feed::RecordEnd));
    assert_eq!(m.feed(&Token::EndObject), Ok(Feed::Outer));
    assert_eq!(m.feed(&Token::Eof), Ok(Feed::Finished));
    assert_eq!(m.phase, Phase::Done);
}

#[test]
fn depth_limit_is_refused() {
    let mut m = Splitter { phase: Phase::InRecord { depth: u64::MAX } };
    assert_eq!(m.feed(&Token::StartObject), Err(SplitError::TooDeep));
    assert_eq!(m.phase, Phase::Failed);
}

#[test]
fn terminate_line_appends_newline() {
    assert_eq!(terminate_line(Some(b"{}".to_vec())), Ok(b"{}\n".to_vec()));
    assert_eq!(terminate_line(None), Err(SplitError::Unencodable));
}

#[test]
fn input_formats() {
    assert_eq!(input_format("deals.json.zst"), Ok(InputFormat::JsonZstd));
    assert_eq!(input_format("/data/StorageMarketDeals.json"), Ok(InputFormat::Json));
    assert_eq!(input_format("deals.zst"), Err(UsageError::UnrecognizedSuffix));
    assert_eq!(input_format("deals.json.gz"), Err(UsageError::UnrecognizedSuffix));
    assert_eq!(input_format(""), Err(UsageError::UnrecognizedSuffix));
    assert_eq!(input_format(".json"), Ok(InputFormat::Json));
}

#[test]
fn suffix_checks() {
    assert!(ends_with(b"abc", b"bc"));
    assert!(ends_with(b"abc", b""));
    assert!(!ends_with(b"bc", b"abc"));
    assert!(!ends_with(b"abd", b"bc"));
}

#[test]
fn arrays_do_not_move_the_record_boundary() {
    let (toks, bad) = tokenize(r#"{"k":{"a":[{"b":1},{}],"c":[[]]},"k2":{}}"#);
    assert!(!bad);
    let (lines, r) = split_tokens(&toks);
    assert_eq!(r, Ok(true));
    assert_eq!(text_of(&lines), "{\"a\":[{\"b\":1},{}],\"c\":[[]]}\n{}\n");
}

#[test]
fn writer_refuses_value_where_key_expected() {
    let toks = vec![
        Token::StartObject,
        key("k"),
        Token::StartObject,
        num("1"),
        Token::EndObject,
    ];
    let (lines, r) = split_tokens(&toks);
    assert_eq!(r, Err(SplitError::Unencodable));
    assert!(lines.is_empty());
}

#[test]
fn first_error_is_reported() {
    let toks = vec![
        Token::StartObject,
        key("a"),
        Token::StartObject,
        Token::EndObject,
        Token::Null,
        Token::StartArray,
    ];
    let (lines, r) = split_tokens(&toks);
    assert_eq!(r, Err(SplitError::UnexpectedToken));
    assert_eq!(text_of(&lines), "{}\n");
}
