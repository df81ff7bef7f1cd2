use sizespan::cli::{json_escape, json_object, select_command, strip_json_flag, usage, Command, JsonValue};

#[test]
fn json_escape_handles_quotes_and_backslashes() {
    assert_eq!(json_escape(r#"a"b\c"#), r#"a\"b\\c"#);
    assert_eq!(json_escape("tab\there"), "tab\\there");
}

#[test]
fn json_escape_handles_control_characters() {
    assert_eq!(json_escape("a\nb\r"), "a\\nb\\r");
    assert_eq!(json_escape("\u{1}\u{1f}"), "\\u0001\\u001f");
    assert_eq!(json_escape("é ✓"), "é ✓");
}

#[test]
fn json_object_writes_fields_in_order() {
    let fields = [
        ("input", JsonValue::Str("1.5\"MiB".to_string())),
        ("bytes", JsonValue::Num("1572864".to_string())),
    ];
    assert_eq!(json_object(&fields), r#"{"input":"1.5\"MiB","bytes":1572864}"#);
    assert_eq!(json_object(&[]), "{}");
}

#[test]
fn strips_only_a_trailing_json_flag() {
    let args: Vec<String> = vec!["bytes".into(), "parse".into(), "1".into(), "--json".into()];
    let (json, rest) = strip_json_flag(&args);
    assert!(json);
    assert_eq!(rest, &args[..3]);
    let args: Vec<String> = vec!["--json".into(), "bytes".into()];
    let (json, rest) = strip_json_flag(&args);
    assert!(!json);
    assert_eq!(rest, &args[..]);
    let (json, rest) = strip_json_flag(&[]);
    assert!(!json);
    assert!(rest.is_empty());
}

#[test]
fn selects_subcommands() {
    let a = |v: &[&str]| v.iter().map(|s| s.to_string()).collect::<Vec<String>>();
    assert_eq!(select_command(&a(&["bytes", "parse", "1"])), Some(Command::BytesParse));
    assert_eq!(select_command(&a(&["bytes", "fmt", "1"])), Some(Command::BytesFmt));
    assert_eq!(select_command(&a(&["duration", "parse", "1"])), Some(Command::DurationParse));
    assert_eq!(select_command(&a(&["duration", "fmt", "1"])), Some(Command::DurationFmt));
    assert_eq!(select_command(&a(&["duration", "fmt"])), None);
    assert_eq!(select_command(&a(&["bytes", "parse", "1", "2"])), None);
    assert_eq!(select_command(&a(&["Bytes", "parse", "1"])), None);
}

#[test]
fn usage_names_every_subcommand() {
    let text = usage();
    assert!(text.starts_with("usage:\n"));
    for sub in ["bytes parse", "bytes fmt", "duration parse", "duration fmt"] {
        assert!(text.contains(sub));
    }
}

/// Reads the text between the quotes of a JSON string back into its
/// characters; `None` where it is not such a text.
fn json_unescape(t: &str) -> Option<String> {
    let cs: Vec<char> = t.chars().collect();
    let mut out = String::new();
    let mut i = 0;
    while i < cs.len() {
        let c = cs[i];
        if c == '\\' {
            let e = *cs.get(i + 1)?;
            match e {
                '"' | '\\' | '/' => out.push(e),
                'b' => out.push('\u{8}'),
                'f' => out.push('\u{c}'),
                'n' => out.push('\n'),
                'r' => out.push('\r'),
                't' => out.push('\t'),
                'u' => {
                    let hex: String = cs.get(i + 2..i + 6)?.iter().collect();
                    let v = u32::from_str_radix(&hex, 16).ok()?;
                    out.push(char::from_u32(v)?);
                    i += 4;
                }
                _ => return None,
            }
            i += 2;
        } else if c == '"' || (c as u32) < 0x20 {
            return None;
        } else {
            out.push(c);
            i += 1;
        }
    }
    Some(out)
}

#[test]
fn escaped_text_reads_back_as_a_json_string() {
    let mut samples: Vec<String> = (0u32..0x80).map(|v| char::from_u32(v).unwrap().to_string()).collect();
    samples.push(String::new());
    samples.push("say \"hi\"\\\n\tbye\u{7f}\u{0}é✓😀".to_string());
    samples.push("\\u0041 \\\"".to_string());
    for s in samples {
        let e = json_escape(&s);
        assert!(e.chars().all(|c| (c as u32) >= 0x20), "escaped: {e:?}");
        assert_eq!(json_unescape(&e), Some(s.clone()), "escaped: {e:?}");
    }
}
