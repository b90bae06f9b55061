use hyper_transpiler::{
    classify_line, content_bounds, find_structure, has_async_construct, has_await, lex,
    transpile, transpile_ext, LineType, SourceMapping, TranspileResult,
};

fn reconstruct(source: &str, r: &TranspileResult) -> String {
    let mut out = String::new();
    for p in r.python_pieces.as_ref().unwrap() {
        out.push_str(&p.prefix);
        out.push_str(&source[p.src_start..p.src_end]);
        out.push_str(&p.suffix);
    }
    out
}

fn line_count(code: &str) -> usize {
    let n = code.matches('\n').count();
    if code.is_empty() || code.ends_with('\n') {
        n
    } else {
        n + 1
    }
}

#[test]
fn test_simple() {
    let result = transpile("name: str\n\n<div>Hello {name}</div>\n");
    assert!(result.python_code.contains("def __hyper_template__(name: str):"));
    assert!(result.python_code.contains("t\"\"\"<div>Hello {name}</div>\"\"\""));
}

#[test]
fn test_async() {
    let result = transpile("id: int\n\ndata = await fetch(id)\n<div>{data}</div>\n");
    assert!(result.python_code.contains("async def __hyper_template__"));
}

#[test]
fn test_control_flow() {
    let result = transpile("items: list\n\nfor item in items:\n    <li>{item}</li>\nend\n");
    assert!(result.python_code.contains("for item in items:"));
    assert!(result.python_code.contains("pass"));
}

#[test]
fn simple_exact_output() {
    let r = transpile("name: str\n\n<div>Hello {name}</div>\n");
    assert_eq!(
        r.python_code,
        "def __hyper_template__(name: str):\n\n    t\"\"\"<div>Hello {name}</div>\"\"\"\n"
    );
    assert!(!r.python_code.starts_with("async"));
    assert_eq!(
        r.source_mappings[0],
        SourceMapping { gen_line: 0, gen_col: 23, src_line: 0, src_col: 0 }
    );
    assert_eq!(
        r.source_mappings[2],
        SourceMapping { gen_line: 2, gen_col: 8, src_line: 2, src_col: 0 }
    );
}

#[test]
fn control_flow_exact_output() {
    let r = transpile("items: list\n\nfor item in items:\n    <li>{item}</li>\nend\n");
    assert_eq!(
        r.python_code,
        "def __hyper_template__(items: list):\n\n    for item in items:\n        t\"\"\"<li>{item}</li>\"\"\"\n    pass\n"
    );
    assert_eq!(
        r.source_mappings[3],
        SourceMapping { gen_line: 3, gen_col: 12, src_line: 3, src_col: 4 }
    );
    assert_eq!(
        r.source_mappings[4],
        SourceMapping { gen_line: 4, gen_col: 4, src_line: 4, src_col: 0 }
    );
}

#[test]
fn async_header_forms() {
    let r = transpile("x = 1\nasync for a in b:\n    <p>{a}</p>\nend\n");
    assert!(r.python_code.starts_with("async def __hyper_template__():"));
    let r = transpile("async with lock:\n    x = 1\nend\n");
    assert!(r.python_code.starts_with("async def __hyper_template__():"));
    let r = transpile("y = f(await g())\n");
    assert!(r.python_code.starts_with("async def __hyper_template__():"));
    let r = transpile("# await this\nx = 1\n");
    assert_eq!(r.python_code, "# await this\ndef __hyper_template__():\n    x = 1\n");
    let r = transpile("awaiting = 1\n");
    assert!(r.python_code.starts_with("def __hyper_template__():"));
}

#[test]
fn consecutive_cases_share_indentation() {
    let r = transpile("match x:\n    case 1:\n        a\n    case 2:\n        b\nend\n");
    assert_eq!(
        r.python_code,
        "def __hyper_template__():\n    match x:\n        case 1:\n            a\n        case 2:\n            b\n    pass\n"
    );
}

#[test]
fn empty_input_gives_bare_header() {
    let r = transpile("");
    assert_eq!(r.python_code, "def __hyper_template__():\n");
    assert_eq!(r.source_mappings.len(), 1);
    assert_eq!(
        r.source_mappings[0],
        SourceMapping { gen_line: 0, gen_col: 0, src_line: 0, src_col: 0 }
    );
    assert!(r.python_pieces.is_none());
}

#[test]
fn else_is_dedented_without_closing() {
    let r = transpile("if a:\n    x = 1\nelse:\n    x = 2\nend\n");
    assert_eq!(
        r.python_code,
        "def __hyper_template__():\n    if a:\n        x = 1\n    else:\n        x = 2\n    pass\n"
    );
}

#[test]
fn stray_end_stays_at_level_one() {
    let r = transpile("end\nend\n");
    assert_eq!(r.python_code, "def __hyper_template__():\n    pass\n    pass\n");
}

#[test]
fn end_after_nested_blocks_drops_level() {
    let r = transpile("if a:\nfor b in c:\nx\nend\ny\nend\nz\n");
    assert_eq!(
        r.python_code,
        "def __hyper_template__():\n    if a:\n        for b in c:\n            x\n        pass\n        y\n    pass\n    z\n"
    );
}

#[test]
fn leading_comments_and_params() {
    let src = "# doc\n\na: int\nb : str\n<p>{a}{b}</p>";
    let r = transpile(src);
    assert_eq!(
        r.python_code,
        "# doc\n\ndef __hyper_template__(a: int, b : str):\n    t\"\"\"<p>{a}{b}</p>\"\"\"\n"
    );
    assert_eq!(r.source_mappings.len(), 4);
    assert_eq!(
        r.source_mappings[2],
        SourceMapping { gen_line: 2, gen_col: 23, src_line: 2, src_col: 0 }
    );
}

#[test]
fn mappings_count_and_numbering() {
    let srcs = [
        "",
        "name: str\n\n<div>Hello {name}</div>\n",
        "# c\nx: int\ny: int\nif x:\n  <b>{y}</b>\nelif y:\n  z = 1\nend\n",
        "match v:\ncase 1:\na\ncase _:\nb\nend",
    ];
    for src in srcs {
        let r = transpile_ext(src, true);
        assert_eq!(r.source_mappings.len(), line_count(&r.python_code));
        for (i, m) in r.source_mappings.iter().enumerate() {
            assert_eq!(m.gen_line, i);
        }
    }
}

#[test]
fn pieces_rebuild_generated_code() {
    let srcs = [
        "",
        "name: str\n\n<div>Hello {name}</div>\n",
        "items: list\n\nfor item in items:\n    <li>{item}</li>\nend\n",
        "# c\nx: int\ny: int\nif x:\n  <b>{y}</b>\nelif y:\n  z = 1\nend\n",
        "match v:\ncase 1:\na\ncase _:\nb\nend",
    ];
    for src in srcs {
        let r = transpile_ext(src, true);
        assert_eq!(reconstruct(src, &r), r.python_code);
    }
}

#[test]
fn repeated_runs_agree() {
    let src = "a: int\nif a:\n  <p>{a}</p>\nend\n";
    let r1 = transpile_ext(src, true);
    let r2 = transpile_ext(src, true);
    assert_eq!(r1.python_code, r2.python_code);
    assert_eq!(r1.source_mappings, r2.source_mappings);
    assert_eq!(r1.python_pieces.unwrap().len(), r2.python_pieces.unwrap().len());
}

#[test]
fn classify_lines() {
    assert_eq!(classify_line("  end  "), LineType::End);
    assert_eq!(classify_line("endx"), LineType::Python);
    assert_eq!(classify_line("\t<div>"), LineType::Html);
    assert_eq!(classify_line("if x:"), LineType::Control);
    assert_eq!(classify_line("else:"), LineType::Control);
    assert_eq!(classify_line("async  for a in b:"), LineType::Control);
    assert_eq!(classify_line("def(x)"), LineType::Control);
    assert_eq!(classify_line("format = 1"), LineType::Python);
    assert_eq!(classify_line("iffy"), LineType::Python);
    assert_eq!(classify_line("x = 1"), LineType::Python);
}

#[test]
fn lex_offsets_and_numbers() {
    let lines = lex("ab\n\ncd\r\nx");
    assert_eq!(lines.len(), 4);
    assert_eq!(lines[0].text, "ab");
    assert_eq!(lines[1].text, "");
    assert_eq!(lines[2].text, "cd");
    assert_eq!(lines[3].text, "x");
    assert_eq!(lines[2].byte_offset, 4);
    assert_eq!(lines[3].byte_offset, 7);
    assert_eq!(lines[3].line_number, 3);
    assert_eq!(lex("a\n").len(), 1);
    assert_eq!(lex("").len(), 0);
}

#[test]
fn structure_split() {
    let lines = lex("# c\n\nx: int\ny:str\nz = 1\n");
    let (leading, params, body) = find_structure(&lines);
    assert_eq!(leading.len(), 2);
    assert_eq!(params.len(), 2);
    assert_eq!(body, 4);
    let lines = lex("<p>\n");
    let (leading, params, body) = find_structure(&lines);
    assert_eq!((leading.len(), params.len(), body), (0, 0, 0));
}

#[test]
fn await_detection() {
    assert!(has_await(&lex("x = await y\n")));
    assert!(has_await(&lex("await y\n")));
    assert!(!has_await(&lex("# await y\n")));
    assert!(!has_await(&lex("<p>await y</p>\n")));
    assert!(has_async_construct(&lex("async for x in y:\n")));
    assert!(!has_async_construct(&lex("for x in y:\n")));
}

#[test]
fn bounds_of_content() {
    assert_eq!(content_bounds("  ab\r"), (2, 4));
    assert_eq!(content_bounds("\tx"), (1, 2));
    assert_eq!(content_bounds("   "), (3, 3));
}

#[test]
fn unicode_white_space_trims_leading_lines() {
    let r = transpile("\u{3000}\nx = 1\n");
    assert_eq!(r.python_code, "\ndef __hyper_template__():\n    x = 1\n");
}

#[test]
fn trailing_blank_body_line_keeps_its_line() {
    let r = transpile_ext("x = 1\n\n", true);
    assert_eq!(r.python_code, "def __hyper_template__():\n    x = 1\n\n");
    assert_eq!(r.source_mappings.len(), 3);
    assert_eq!(line_count(&r.python_code), 3);
    assert_eq!(
        r.source_mappings[2],
        SourceMapping { gen_line: 2, gen_col: 0, src_line: 1, src_col: 0 }
    );
    assert_eq!(reconstruct("x = 1\n\n", &r), r.python_code);
}

#[test]
fn end_marker_maps_to_its_indentation_and_column() {
    let r = transpile("  end\nx\n");
    assert_eq!(r.python_code, "def __hyper_template__():\n    pass\n    x\n");
    assert_eq!(
        r.source_mappings[1],
        SourceMapping { gen_line: 1, gen_col: 4, src_line: 0, src_col: 2 }
    );
    assert_eq!(
        r.source_mappings[2],
        SourceMapping { gen_line: 2, gen_col: 4, src_line: 1, src_col: 0 }
    );
}

#[test]
fn crlf_offsets_count_one_byte_per_line_end() {
    let src = "a: int\r\nx = a\r\n";
    let r = transpile_ext(src, true);
    assert_eq!(r.python_code, "def __hyper_template__(a: int):\n    x = a\n");
    let pieces = r.python_pieces.unwrap();
    assert_eq!(pieces[1].src_start, 7);
    assert_eq!(pieces[1].src_end, 12);
}

#[test]
fn pieces_without_parameters_and_markup() {
    let src = "<p>hi</p>\n";
    let r = transpile_ext(src, true);
    let pieces = r.python_pieces.as_ref().unwrap();
    assert_eq!(pieces.len(), 2);
    assert_eq!(pieces[0].prefix, "def __hyper_template__():\n");
    assert_eq!((pieces[0].src_start, pieces[0].src_end), (0, 0));
    assert_eq!(pieces[1].prefix, "    t\"\"\"");
    assert_eq!(pieces[1].suffix, "\"\"\"\n");
    assert_eq!((pieces[1].src_start, pieces[1].src_end), (0, 9));
    assert_eq!(reconstruct(src, &r), r.python_code);
}
