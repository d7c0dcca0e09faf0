use sunbird::badges::{read_var_int, read_string, Badge, BadgesFile, ParseError};

fn varint(mut n: u64, out: &mut Vec<u8>) {
    loop {
        let b = (n & 0x7f) as u8;
        n >>= 7;
        if n == 0 {
            out.push(b);
            return;
        }
        out.push(b | 0x80);
    }
}

fn text(s: &str, out: &mut Vec<u8>) {
    out.push(0x0a);
    varint(s.len() as u64, out);
    out.extend_from_slice(s.as_bytes());
}

fn record(uuid: &str, name: &str, icon: &str, description: &str, time: u64) -> Vec<u8> {
    let mut content = Vec::new();
    text(uuid, &mut content);
    text(name, &mut content);
    text(icon, &mut content);
    text(description, &mut content);
    content.push(0x28);
    varint(time, &mut content);
    content.push(0x30);
    content.push(2);
    let mut out = vec![0x1a];
    varint(content.len() as u64, &mut out);
    out.extend(content);
    out
}

fn file(records: &[Vec<u8>], last_change: u64) -> Vec<u8> {
    let mut out = vec![0x08, 0x01, 0x10];
    varint(last_change, &mut out);
    for r in records {
        out.extend_from_slice(r);
    }
    out
}

#[test]
fn var_ints() {
    assert!(matches!(read_var_int(&[0x05], 0), Ok((5, 1))));
    assert!(matches!(read_var_int(&[0xac, 0x02], 0), Ok((300, 2))));
    assert!(matches!(read_var_int(&[0xff, 0xff, 0xff, 0xff, 0xff, 0xff, 0xff, 0xff, 0xff, 0x01], 0), Ok((u64::MAX, 10))));
    assert!(matches!(read_var_int(&[0x80, 0x80], 0), Err(ParseError::Io)));
    assert!(matches!(read_var_int(&[0x80; 11], 0), Err(ParseError::Io)));
    assert!(matches!(read_var_int(&[], 0), Err(ParseError::Io)));
}

#[test]
fn strings() {
    let mut bytes = vec![];
    varint(5, &mut bytes);
    bytes.extend_from_slice("héll".as_bytes());
    assert!(matches!(read_string(&bytes, 0), Ok((ref s, 6)) if s == "héll"));
    assert!(matches!(read_string(&[0x03, b'a', b'b'], 0), Err(ParseError::Io)));
    assert!(matches!(read_string(&[0x02, 0xc3, 0x28], 0), Err(ParseError::Utf8)));
}

#[test]
fn parses_a_badge_list() {
    let bytes = file(&[
        record("1cb07348-34a4-4741-b50f-c41e584370f7", "TeamSpeak Addict", "https://badges.example/addict", "Has spent time", 1521556148),
        record("50bbdbc8-0f2a-46eb-9808-602225b49627", "Gamescom 2016", "https://badges.example/gc", "", 7),
    ], 1536834546);
    let parsed = match BadgesFile::parse(&bytes) {
        Ok(f) => f,
        Err(e) => panic!("{:?}", e),
    };
    assert_eq!(parsed.last_change, 1536834546);
    assert_eq!(parsed.badges.len(), 2);
    assert_eq!(parsed.badges[0].uuid, "1cb07348-34a4-4741-b50f-c41e584370f7");
    assert_eq!(parsed.badges[0].name, "TeamSpeak Addict");
    assert_eq!(parsed.badges[0].icon_url, "https://badges.example/addict");
    assert_eq!(parsed.badges[0].description, "Has spent time");
    assert_eq!(parsed.badges[0].time, 1521556148);
    assert_eq!(parsed.badges[1].name, "Gamescom 2016");
    assert_eq!(parsed.badges[1].description, "");
    assert_eq!(parsed.badges[1].time, 7);
}

#[test]
fn empty_badge_list() {
    let parsed = BadgesFile::parse(&file(&[], 3)).ok().unwrap();
    assert!(parsed.badges.is_empty());
    assert_eq!(parsed.last_change, 3);
}

#[test]
fn record_length_decides_where_the_next_starts() {
    let mut r = record("u", "n", "i", "d", 1);
    r[1] += 2;
    r.extend_from_slice(&[0xee, 0xee]);
    let mut bytes = r.clone();
    bytes.extend(record("v", "m", "j", "e", 2));
    let (first, next) = match Badge::read(&bytes, 0) {
        Ok(found) => found,
        Err(e) => panic!("{:?}", e),
    };
    assert_eq!(first.uuid, "u");
    assert_eq!(next, r.len());
    let (second, _) = Badge::read(&bytes, next).ok().unwrap();
    assert_eq!(second.uuid, "v");
}

#[test]
fn truncated_badge_list_fails() {
    let mut bytes = file(&[record("u", "n", "i", "d", 1)], 3);
    bytes.truncate(bytes.len() - 3);
    assert!(matches!(BadgesFile::parse(&bytes), Err(ParseError::Io)));
    assert!(matches!(BadgesFile::parse(&[0x08]), Err(ParseError::Io)));
}

#[test]
fn invalid_text_fails() {
    let mut r = record("u", "n", "i", "d", 1);
    let at = r.iter().position(|b| *b == b'n').unwrap();
    r[at] = 0xff;
    assert!(matches!(BadgesFile::parse(&file(&[r], 3)), Err(ParseError::Utf8)));
}

#[test]
fn declared_length_past_the_end_is_followed() {
    let mut r = record("u", "n", "i", "d", 1);
    r[1] = 0x7f;
    let (badge, next) = Badge::read(&r, 0).ok().unwrap();
    assert_eq!(badge.uuid, "u");
    assert_eq!(next, 2 + 0x7f);
    let parsed = BadgesFile::parse(&file(&[r], 3)).ok().unwrap();
    assert_eq!(parsed.badges.len(), 1);
    assert_eq!(parsed.badges[0].description, "d");
}
