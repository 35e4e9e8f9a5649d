//! The hand-written card pattern and END-sentinel scan, checked against the
//! same patterns run by the regex crate as a reference. The patterns are
//! compiled with `(?-u)`, so the classes match single bytes and whitespace
//! is ASCII: the card format is byte-oriented, and a value token is a run
//! of arbitrary bytes, valid UTF-8 or not.

use regex::bytes::Regex;
use rheader::header::find_end;
use rheader::parse_card;

fn pad(text: &[u8], len: usize) -> Vec<u8> {
    let mut v = text.to_vec();
    while v.len() < len {
        v.push(b' ');
    }
    v
}

fn trim_end_bytes(s: &[u8]) -> &[u8] {
    let mut e = s.len();
    while e > 0 && (s[e - 1] == b' ' || (9..=13).contains(&s[e - 1])) {
        e -= 1;
    }
    &s[..e]
}

#[test]
fn card_pattern_agrees_with_reference_regex() {
    let re = Regex::new(r"(?-u)([A-Z0-9_-]{1,8})\s*=\s*(?:('[^']*')|([^/\s]*))\s*(?:/\s*(.*))?")
        .unwrap();
    let cases: Vec<Vec<u8>> = vec![
        b"KEY1    = 10 / a comment".to_vec(),
        b"NAME    = 'hello'".to_vec(),
        b"FLAG    = T".to_vec(),
        b"FLAG2   = f".to_vec(),
        b"EMPTY   =".to_vec(),
        b"BAD     = abc$%".to_vec(),
        b"ABCDEFGHIJ = 5".to_vec(),
        b"ABCDEFGHIJKLMNOP = 5".to_vec(),
        b"AB CD    = 5".to_vec(),
        b"A=1".to_vec(),
        b"A =1".to_vec(),
        b"A= 1".to_vec(),
        b"A  =  1  ".to_vec(),
        b"K       = 'v' junk / c".to_vec(),
        b"K       = 'unterminated".to_vec(),
        b"K       = ''".to_vec(),
        b"K       = '''".to_vec(),
        b"K       = a'b / c".to_vec(),
        b"K       = /c".to_vec(),
        b"K       = / ".to_vec(),
        b"K       =/c".to_vec(),
        b"K       ='q' / c".to_vec(),
        b"K       == 5".to_vec(),
        b"= 5".to_vec(),
        b"1 = 2".to_vec(),
        b"_       = x".to_vec(),
        b"-       = y".to_vec(),
        b"COMMENT text with no equals".to_vec(),
        b"".to_vec(),
        b"END".to_vec(),
        b"K       = 1 / a\nb".to_vec(),
        b"K\t= 5".to_vec(),
        b"K       = 1 /   ".to_vec(),
        b"K       = 1/".to_vec(),
        b"K       = 'a b ' / c".to_vec(),
        b"lower   = 1".to_vec(),
        b"K       = \xff\xfe / c".to_vec(),
        b"T       = T / flag".to_vec(),
        b"K       = '  q  ' ".to_vec(),
    ];
    for text in &cases {
        let card = pad(text, 80);
        let caps = re.captures(&card);
        let parsed = parse_card(&card);
        match (caps, parsed) {
            (None, None) => {},
            (Some(caps), Some(k)) => {
                let name = String::from_utf8_lossy(&caps[1]).trim().to_string();
                assert_eq!(k.name, name, "name for {:?}", text);

                let raw: &[u8] = if let Some(v) = caps.get(2) {
                    trim_end_bytes(v.as_bytes())
                } else if let Some(v) = caps.get(3) {
                    trim_end_bytes(v.as_bytes())
                } else {
                    &[]
                };
                // the engine stores a quoted token without its delimiters and
                // without trailing blanks inside them
                let expected: Vec<u8> = if caps.get(2).is_some() {
                    trim_end_bytes(&raw[1..raw.len() - 1]).to_vec()
                } else {
                    raw.to_vec()
                };
                assert_eq!(k.raw_value().as_slice(), expected.as_slice(), "raw for {:?}", text);

                let comment = caps
                    .get(4)
                    .map(|c| String::from_utf8_lossy(c.as_bytes()).trim().to_string())
                    .filter(|c| !c.is_empty());
                assert_eq!(k.comment, comment, "comment for {:?}", text);
            },
            (caps, parsed) => panic!(
                "pattern disagreement on {:?}: reference matched: {}, engine matched: {}",
                text,
                caps.is_some(),
                parsed.is_some()
            ),
        }
    }
}

#[test]
fn end_scan_agrees_with_reference_regex() {
    let end_re = Regex::new(r"(?-u)(END)\s*$").unwrap();
    let mut cases: Vec<Vec<u8>> = vec![
        pad(b"KEY1    = 1", 2880),
        pad(b"END", 2880),
        pad(b"A       = 1 END", 2880),
        pad(b"FRIEND", 2880),
        pad(b"", 2880),
        pad(b"ENDX", 2880),
        pad(b"END END", 2880),
    ];
    // END as the very last bytes of the block
    let mut b = pad(b"", 2877);
    b.extend_from_slice(b"END");
    cases.push(b);
    // END followed by a tab and a line feed
    let mut b = pad(b"END\t\n", 2880);
    b[2878] = b'\t';
    b[2879] = b'\n';
    cases.push(b);
    // a card after an END card keeps the block sentinel-free
    let mut b = pad(b"END", 80);
    b.extend_from_slice(&pad(b"LATE    = 1", 80));
    let b = pad(&b, 2880);
    cases.push(b);

    for block in &cases {
        let reference = end_re.find(block).map(|m| m.start());
        let ours = find_end(block);
        assert_eq!(ours, reference, "END scan on block {:?}", &block[..40]);
    }
}
