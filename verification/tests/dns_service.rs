use hallvardns::dns::policy::{is_blocked, local_mapping};
use hallvardns::dns::query::DnsQuery;
use hallvardns::dns::server::{respond, server_reply};
use hallvardns::dns::{answer, local, parse, serve_reply, Reply};

const HEADER: [u8; 12] = [0x12, 0x34, 0x01, 0x00, 0x00, 0x01, 0x00, 0x00, 0x00, 0x00, 0x00, 0x00];

fn encode_name(labels: &[&[u8]]) -> Vec<u8> {
    let mut out = Vec::new();
    for label in labels {
        out.push(label.len() as u8);
        out.extend_from_slice(label);
    }
    out.push(0);
    out
}

fn query_packet(labels: &[&[u8]], qtype: u16, qclass: u16) -> Vec<u8> {
    let mut p = HEADER.to_vec();
    p.extend(encode_name(labels));
    p.extend_from_slice(&qtype.to_be_bytes());
    p.extend_from_slice(&qclass.to_be_bytes());
    p
}

fn padded(p: &[u8], size: usize) -> Vec<u8> {
    let mut b = p.to_vec();
    b.resize(size, 0xee);
    b
}

#[test]
fn parse_reads_lower_case_dotted_name() {
    let p = query_packet(&[b"WWW", b"Example", b"COM"], 1, 1);
    let q = parse(&p).expect("a valid A query");
    assert_eq!(q.name(), "www.example.com");
}

#[test]
fn parse_rejects_short_packets() {
    let p = query_packet(&[b"a"], 1, 1);
    assert_eq!(p.len(), 19);
    assert!(parse(&p[..16]).is_none());
    assert!(parse(&[]).is_none());
}

#[test]
fn parse_rejects_responses() {
    let mut p = query_packet(&[b"example", b"com"], 1, 1);
    p[2] |= 0x80;
    assert!(parse(&p).is_none());
}

#[test]
fn parse_rejects_question_counts_other_than_one() {
    let mut p = query_packet(&[b"example", b"com"], 1, 1);
    p[5] = 2;
    assert!(parse(&p).is_none());
    p[5] = 1;
    p[4] = 1;
    assert!(parse(&p).is_none());
}

#[test]
fn parse_rejects_compressed_names_and_long_labels() {
    let mut p = query_packet(&[b"example", b"com"], 1, 1);
    p[12] = 0xc0;
    assert!(parse(&p).is_none());
    let long = [b'a'; 64];
    let p = query_packet(&[&long[..]], 1, 1);
    assert!(parse(&p).is_none());
    let most = [b'a'; 63];
    let p = query_packet(&[&most[..]], 1, 1);
    assert_eq!(parse(&p).expect("a 63-byte label").name().len(), 63);
}

#[test]
fn parse_rejects_classes_other_than_in() {
    let p = query_packet(&[b"example", b"com"], 1, 3);
    assert!(parse(&p).is_none());
}

#[test]
fn parse_rejects_truncated_questions() {
    let p = query_packet(&[b"example", b"com"], 1, 1);
    assert!(parse(&p[..p.len() - 1]).is_none());
    // The name ends outside the packet.
    assert!(parse(&p[..20]).is_none());
}

#[test]
fn parse_limits_names_to_253_bytes() {
    let l63 = [b'x'; 63];
    let l61 = [b'y'; 61];
    let l62 = [b'y'; 62];
    let fits = query_packet(&[&l63[..], &l63[..], &l63[..], &l61[..]], 1, 1);
    assert_eq!(parse(&fits).expect("253 bytes fit").name().len(), 253);
    let too_long = query_packet(&[&l63[..], &l63[..], &l63[..], &l62[..]], 1, 1);
    assert!(parse(&too_long).is_none());
}

#[test]
fn name_that_is_not_utf8_reads_as_empty() {
    let p = query_packet(&[&[0xffu8, 0xfe][..], b"com"], 1, 1);
    let q = parse(&p).expect("bytes are not checked while parsing");
    assert_eq!(q.name(), "");
}

#[test]
fn name_in_utf8_is_kept() {
    let p = query_packet(&["bücher".as_bytes(), b"de"], 1, 1);
    let q = parse(&p).expect("a valid query");
    assert_eq!(q.name(), "bücher.de");
}

#[test]
fn local_knows_the_server() {
    assert_eq!(local("server.lan"), Some([192, 168, 86, 89]));
    assert_eq!(local("server.lan."), None);
    assert_eq!(local("example.com"), None);
    assert_eq!(local(""), None);
}

#[test]
fn answer_appends_an_a_record() {
    let p = query_packet(&[b"server", b"lan"], 1, 1);
    let end = p.len();
    let mut buf = padded(&p, 64);
    let n = answer(&mut buf, end, Some([10, 0, 0, 7])).expect("room for the record");
    assert_eq!(n, end + 16);
    assert_eq!(&buf[0..2], &[0x12, 0x34]);
    assert_eq!(buf[2], 0x85);
    assert_eq!(buf[3], 0x00);
    assert_eq!(&buf[4..12], &[0, 1, 0, 1, 0, 0, 0, 0]);
    assert_eq!(&buf[12..end], &p[12..]);
    assert_eq!(
        &buf[end..n],
        &[0xc0, 0x0c, 0, 1, 0, 1, 0, 0, 0, 60, 0, 4, 10, 0, 0, 7]
    );
    assert!(buf[n..].iter().all(|&b| b == 0xee));
}

#[test]
fn answer_keeps_recursion_desired_bit_only() {
    let mut p = query_packet(&[b"server", b"lan"], 1, 1);
    p[2] = 0x78;
    p[3] = 0xff;
    let end = p.len();
    let mut buf = padded(&p, 64);
    answer(&mut buf, end, Some([1, 2, 3, 4])).expect("room for the record");
    assert_eq!(buf[2], 0x84);
    assert_eq!(buf[3], 0x01);
}

#[test]
fn answer_without_address_refuses() {
    let p = query_packet(&[b"ads", b"example"], 1, 1);
    let end = p.len();
    let mut buf = padded(&p, 64);
    buf[6..12].copy_from_slice(&[9, 9, 9, 9, 9, 9]);
    assert_eq!(answer(&mut buf, end, None), Some(end));
    assert_eq!(&buf[0..2], &[0x12, 0x34]);
    assert_eq!(buf[2], 0x84);
    assert_eq!(buf[3], 0x03);
    assert_eq!(&buf[4..6], &[0, 1]);
    assert_eq!(&buf[6..12], &[0, 0, 0, 0, 0, 0]);
    assert_eq!(&buf[12..end], &p[12..]);
}

#[test]
fn answer_without_room_leaves_the_buffer() {
    let p = query_packet(&[b"server", b"lan"], 1, 1);
    let end = p.len();
    let mut buf = padded(&p, end + 15);
    let before = buf.clone();
    assert_eq!(answer(&mut buf, end, Some([1, 2, 3, 4])), None);
    assert_eq!(buf, before);
    assert_eq!(answer(&mut buf, usize::MAX - 3, Some([1, 2, 3, 4])), None);
    assert_eq!(buf, before);
}

#[test]
fn respond_matches_answer() {
    let p = query_packet(&[b"server", b"lan"], 1, 1);
    let end = p.len();
    for addr in [None, Some([192, 168, 86, 89])] {
        let mut a = padded(&p, 64);
        let mut b = padded(&p, 64);
        assert_eq!(answer(&mut a, end, addr), respond(&mut b, end, addr));
        assert_eq!(a, b);
    }
    let mut short = padded(&p, end + 3);
    assert_eq!(respond(&mut short, end, Some([1, 1, 1, 1])), None);
}

#[test]
fn serve_answers_local_a_queries() {
    let p = query_packet(&[b"Server", b"LAN"], 1, 1);
    let q = parse(&p).expect("a valid query");
    let mut buf = padded(&p, 1232);
    assert_eq!(serve_reply(&mut buf, &q), Reply::Send(p.len() + 16));
    assert_eq!(&buf[p.len() + 12..p.len() + 16], &[192, 168, 86, 89]);
}

#[test]
fn serve_drops_other_query_types() {
    let p = query_packet(&[b"server", b"lan"], 28, 1);
    let q = parse(&p).expect("a valid AAAA query");
    let mut buf = padded(&p, 1232);
    let before = buf.clone();
    assert_eq!(serve_reply(&mut buf, &q), Reply::Drop);
    assert_eq!(buf, before);
}

#[test]
fn serve_forwards_other_names() {
    let p = query_packet(&[b"example", b"com"], 1, 1);
    let q = parse(&p).expect("a valid query");
    let mut buf = padded(&p, 1232);
    let before = buf.clone();
    assert_eq!(serve_reply(&mut buf, &q), Reply::Forward);
    assert_eq!(buf, before);
}

#[test]
fn serve_drops_a_local_answer_that_does_not_fit() {
    let p = query_packet(&[b"server", b"lan"], 1, 1);
    let q = parse(&p).expect("a valid query");
    let mut buf = p.clone();
    assert_eq!(serve_reply(&mut buf, &q), Reply::Drop);
    assert_eq!(buf, p);
}

#[test]
fn dns_query_reads_name_and_question_end() {
    let p = query_packet(&[b"Mail", b"Example", b"ORG"], 15, 255);
    let q = DnsQuery::parse(&p).expect("type and class are not checked");
    assert_eq!(q.name(), "mail.example.org");
    assert_eq!(q.question_end, p.len());
    assert_eq!(q.question_end(), p.len());
}

#[test]
fn dns_query_rejects_bad_packets() {
    let p = query_packet(&[b"example", b"com"], 1, 1);
    assert!(DnsQuery::parse(&p[..11]).is_none());
    assert!(DnsQuery::parse(&p[..p.len() - 1]).is_none());
    let mut r = p.clone();
    r[2] = 0x80;
    assert!(DnsQuery::parse(&r).is_none());
    let mut r = p.clone();
    r[5] = 0;
    assert!(DnsQuery::parse(&r).is_none());
    let mut r = p.clone();
    r[12] = 64;
    assert!(DnsQuery::parse(&r).is_none());
}

#[test]
fn dns_query_accepts_the_root_name() {
    let p = query_packet(&[], 2, 1);
    assert_eq!(p.len(), 17);
    let q = DnsQuery::parse(&p).expect("an empty name");
    assert_eq!(q.name(), "");
    assert_eq!(q.question_end, 17);
}

#[test]
fn nothing_is_blocked_by_the_empty_list() {
    assert!(!is_blocked("ads.example.com"));
    assert!(!is_blocked("example.com"));
    assert!(!is_blocked(""));
    assert!(!is_blocked("..."));
}

#[test]
fn local_mapping_knows_the_server() {
    assert_eq!(local_mapping("server.lan"), Some([192, 168, 86, 89]));
    assert_eq!(local_mapping("SERVER.lan"), None);
    assert_eq!(local_mapping("www.server.lan"), None);
}

#[test]
fn server_answers_local_hosts_and_forwards_the_rest() {
    let p = query_packet(&[b"server", b"lan"], 1, 1);
    let q = DnsQuery::parse(&p).expect("a valid query");
    let mut buf = padded(&p, 1232);
    assert_eq!(server_reply(&mut buf, &q), Reply::Send(p.len() + 16));
    assert_eq!(buf[2], 0x85);
    assert_eq!(&buf[p.len()..p.len() + 16], &[0xc0, 0x0c, 0, 1, 0, 1, 0, 0, 0, 60, 0, 4, 192, 168, 86, 89]);

    let p = query_packet(&[b"example", b"com"], 1, 1);
    let q = DnsQuery::parse(&p).expect("a valid query");
    let mut buf = padded(&p, 1232);
    let before = buf.clone();
    assert_eq!(server_reply(&mut buf, &q), Reply::Forward);
    assert_eq!(buf, before);
}

#[test]
fn both_parsers_agree_on_a_valid_query() {
    let p = query_packet(&[b"Server", b"Lan"], 1, 1);
    let strict = parse(&p).expect("a valid A query");
    let plain = DnsQuery::parse(&p).expect("a valid query");
    assert_eq!(strict.name(), plain.name());
    assert_eq!(plain.question_end, p.len());
    let mut buf = padded(&p, 64);
    // The strict parser's question ends where the answer record goes.
    assert_eq!(serve_reply(&mut buf, &strict), Reply::Send(plain.question_end + 16));
}

#[test]
fn reading_a_name_ignores_case() {
    let upper = query_packet(&[b"WWW", b"EXAMPLE", b"COM"], 1, 1);
    let lower = query_packet(&[b"www", b"example", b"com"], 1, 1);
    let mixed = query_packet(&[b"wWw", b"ExAmPlE", b"cOm"], 1, 1);
    let a = parse(&upper).expect("valid");
    let b = parse(&lower).expect("valid");
    let c = DnsQuery::parse(&mixed).expect("valid");
    assert_eq!(a.name(), b.name());
    assert_eq!(b.name(), c.name());
    assert!(a.name().bytes().all(|c| !c.is_ascii_uppercase()));
}
