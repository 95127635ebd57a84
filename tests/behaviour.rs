use sgf::input::filter_ascii;
use sgf::parser::{parse, Error, Parser};
use sgf::scanner::{Error as ScanError, Position, Scanner, Token};
use sgf::vertex::Collection;

fn parsed(text: &str) -> Collection {
    parse(text).unwrap()
}

fn message(r: Result<Collection, Error>) -> String {
    match r {
        Ok(_) => panic!("expected a parse error"),
        Err(e) => e.to_text(),
    }
}

#[test]
fn uppercase_identifier_parses() {
    let c = parsed("(;GM[1])");
    assert_eq!(c.gametrees.len(), 1);
    let props = &c.gametrees[0].sequence.nodes[0].props;
    assert_eq!(props.len(), 1);
    assert_eq!(props[0].ident, "GM");
    assert_eq!(props[0].values, vec!["1".to_string()]);
}

#[test]
fn lowercase_identifier_is_rejected() {
    assert_eq!(
        message(parse("(;gm[1])")),
        "parse_error at (1:4): unexpected gm in parse_gametree"
    );
}

#[test]
fn escaped_bracket_stays_in_value() {
    let c = parsed("(;ZZ[aoeu [1k\\]])");
    let p = &c.gametrees[0].sequence.nodes[0].props[0];
    assert_eq!(p.ident, "ZZ");
    assert_eq!(p.values.len(), 1);
    assert_eq!(p.values[0], "aoeu [1k\\]");
    assert!(p.values[0].contains(']'));
    assert!(p.values[0].contains('['));
}

#[test]
fn nested_variations() {
    let c = parsed("(;GM[1](;B[aa];W[ab])(;B[ab];W[ac]))");
    let root = &c.gametrees[0];
    assert_eq!(root.sequence.nodes.len(), 1);
    assert_eq!(root.gametrees.len(), 2);
    assert_eq!(root.gametrees[0].sequence.nodes.len(), 2);
    assert_eq!(root.gametrees[1].sequence.nodes.len(), 2);
    assert_eq!(root.gametrees[1].sequence.nodes[1].props[0].values[0], "ac");
}

#[test]
fn strip_key_blanks_the_values() {
    let c = parsed("(;PW[White]PB[Black](;PB[Other][More]))");
    let s = c.strip_key("PB");
    assert_eq!(s.serialize(), "(;PW[White]PB[](;PB[]))");
    let t = c.gametrees[0].strip_key("PW");
    assert_eq!(t.serialize(), "(;PW[]PB[Black](;PB[Other][More]))");
    let p = c.gametrees[0].sequence.nodes[0].props[1].strip_key("PB");
    assert_eq!(p.values, vec![String::new()]);
    assert_eq!(c.gametrees[0].sequence.nodes[0].props[0].strip_key("PB").values, vec!["White".to_string()]);
}

#[test]
fn strip_absent_key_changes_nothing() {
    let c = parsed("(;PW[White]PB[Black];B[aa](;W[bb]))");
    assert_eq!(c.strip_key("XX").serialize(), c.serialize());
    assert_eq!(c.strip_key("pb").serialize(), c.serialize());
    let seq = &c.gametrees[0].sequence;
    assert_eq!(seq.strip_key("XX"), *seq);
    assert_eq!(seq.nodes[0].strip_key("XX"), seq.nodes[0]);
}

#[test]
fn empty_input_fails() {
    assert_eq!(message(parse("")), "empty file");
    assert_eq!(message(parse("\n")), "parse_error at (2:0): cannot have empty collection");
}

#[test]
fn open_node_at_end_fails() {
    assert_eq!(
        message(parse("(;")),
        "parse_error at (1:1): unexpected  in parse_gametree"
    );
}

#[test]
fn unterminated_value_fails() {
    assert_eq!(
        message(parse("(;A[")),
        "parse_error at (1:3): unexpected  eof while waiting for ']'"
    );
}

#[test]
fn bracket_without_identifier_fails() {
    assert_eq!(
        message(parse("(;[1])")),
        "parse_error at (1:4): unexpected [ in parse_gametree"
    );
}

#[test]
fn property_without_value_fails() {
    assert_eq!(
        message(parse("(;A )")),
        "parse_error at (1:4): cannot have empty property list"
    );
}

#[test]
fn tree_without_node_fails() {
    assert_eq!(message(parse("()")), "parse_error at (1:1): cannot have empty node list");
}

#[test]
fn empty_value_counts_as_a_value() {
    let c = parsed("(;B[])");
    assert_eq!(c.gametrees[0].sequence.nodes[0].props[0].values, vec![String::new()]);
}

#[test]
fn leading_garbage_is_skipped() {
    let c = parsed("junk 12 here\n(;A[b])");
    assert_eq!(c.serialize(), "(;A[b])");
}

#[test]
fn trees_must_follow_each_other() {
    assert_eq!(parsed("(;A[1])(;B[2])").gametrees.len(), 2);
    assert_eq!(parsed("(;A[1]) (;B[2])").gametrees.len(), 2);
    let c = parsed("(;A[1])\n(;B[2])");
    assert_eq!(c.gametrees.len(), 2);
    assert_eq!(c.gametrees[1].sequence.nodes[0].props[0].ident, "B");
    assert_eq!(parsed("(;A[1])\n junk (;B[2])").gametrees.len(), 1);
}

#[test]
fn number_too_large_fails_to_scan() {
    let text = "(;A[99999999999999999999])";
    match Scanner::new(text).scan() {
        Ok(_) => panic!("expected a scan error"),
        Err(e) => assert_eq!(
            e.to_text(),
            "scan_error at (1:24): number too large to fit in target type"
        ),
    }
    match Parser::new(text) {
        Ok(_) => panic!("expected a parse error"),
        Err(e) => assert_eq!(
            e.to_text(),
            "scan_error at (1:24): number too large to fit in target type"
        ),
    }
    assert!(parse("(;A[18446744073709551615])").is_ok());
}

#[test]
fn canonical_text() {
    let c = parsed("(;GM[1] AW[ab]\n[bc]\t(;B[007] C[a\t b\n\n c]))");
    assert_eq!(c.serialize(), "(;GM[1]AW[ab][bc](;B[007]C[a\t b\n\n c]))");
    assert_eq!(c.gametrees[0].sequence.serialize(), ";GM[1]AW[ab][bc]");
    assert_eq!(c.gametrees[0].sequence.nodes[0].serialize(), ";GM[1]AW[ab][bc]");
    assert_eq!(c.gametrees[0].sequence.nodes[0].props[1].serialize(), "AW[ab][bc]");
}

#[test]
fn reparsing_canonical_text_gives_the_same_tree() {
    let text = "x (;GM[1]C[it's \\] 007\tok]\n(;B[aa] ;W[ab]C[\u{6bb5}])\n(;B[ab];W[ac]))";
    let first = parsed(text);
    let again = parsed(&first.serialize());
    assert_eq!(again.serialize(), first.serialize());
    assert_eq!(again.gametrees[0].sequence, first.gametrees[0].sequence);
    assert_eq!(again.gametrees[0].gametrees.len(), 2);
    assert_eq!(again.gametrees[0].gametrees[1].sequence, first.gametrees[0].gametrees[1].sequence);
}

#[test]
fn token_texts_and_positions() {
    let tokens = Scanner::new("(;\n\nAb[007]\\x \t\u{e9}").scan().unwrap();
    let texts: Vec<String> = tokens.iter().map(|t| t.to_text()).collect();
    assert_eq!(texts, vec!["(", ";", "\n\n", "Ab", "[", "007", "]", "\\x", " \t", "\u{e9}"]);
    assert_eq!(tokens[0].position(), Position { row: 1, col: 0 });
    assert_eq!(tokens[2].position(), Position { row: 3, col: 0 });
    assert_eq!(tokens[3].position(), Position { row: 3, col: 2 });
    assert!(matches!(tokens[3], Token::Identifier(..)));
    assert!(matches!(tokens[5], Token::Integer(_, 7, _)));
    assert!(matches!(tokens[9], Token::Bytes(..)));
    assert_eq!(Token::Whitespace(" ".to_string()).position(), Position { row: 0, col: 0 });
    let upper = Scanner::new("AB_ AB").scan().unwrap();
    assert!(matches!(upper[0], Token::Identifier(..)));
    assert!(matches!(upper[2], Token::UcLetter(..)));
}

#[test]
fn nul_ends_the_input() {
    let tokens = Scanner::new("(;\u{0}A[b])").scan().unwrap();
    assert_eq!(tokens.len(), 2);
}

#[test]
fn end_of_input_errors_read_as_eof() {
    assert_eq!(Error::Eof.to_text(), "EOF");
    assert_eq!(ScanError::Eof.to_text(), "EOF");
}

#[test]
fn non_ascii_bytes_are_dropped() {
    assert_eq!(filter_ascii(vec![b'(', b';', 0xe4, 0xb8, b'A', b'[', 0xff, b']', b')']), "(;A[])");
    assert_eq!(filter_ascii(vec![]), "");
    assert_eq!(filter_ascii(vec![0x80, 0x7f]), "\u{7f}");
}

#[test]
fn position_text() {
    assert_eq!(Position { row: 12, col: 0 }.to_text(), "(12:0)");
    assert_eq!(Position { row: 1, col: 305 }.to_text(), "(1:305)");
}

#[test]
fn parse_results_have_no_empty_lists() {
    for text in ["(;)", "(;A[])", "(;;)", "(;A[b](;)(;C[d][e]))"] {
        let c = parsed(text);
        assert!(!c.gametrees.is_empty());
        for t in &c.gametrees {
            assert!(!t.sequence.nodes.is_empty());
            for n in &t.sequence.nodes {
                for p in &n.props {
                    assert!(!p.values.is_empty());
                }
            }
        }
    }
    assert!(parse("(;A)").is_err());
    assert!(parse("(())").is_err());
    assert!(parse("x y").is_err());
}

#[test]
fn values_are_kept_verbatim() {
    let c = parsed("(;KM[0.00]C[  ]PB[\u{8001}\u{673d}006]GC[a\t\tb\r\n\nc 12 \\] x])");
    let props = &c.gametrees[0].sequence.nodes[0].props;
    assert_eq!(props[0].values[0], "0.00");
    assert_eq!(props[1].values[0], "  ");
    assert_eq!(props[2].values[0], "\u{8001}\u{673d}006");
    assert_eq!(props[3].values[0], "a\t\tb\r\n\nc 12 \\] x");
}

#[test]
fn escape_at_end_of_input() {
    let tokens = Scanner::new("a\\").scan().unwrap();
    assert_eq!(tokens.len(), 2);
    assert_eq!(tokens[1].to_text(), "\\");
}

#[test]
fn scan_error_on_fresh_scanner() {
    match Scanner::new("").create_error("x".to_string()) {
        ScanError::ScanError(m) => assert_eq!(m, "scan_error at (1:0): x"),
        ScanError::Eof => panic!("expected a scan error"),
    }
}
