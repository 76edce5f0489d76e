use skyproto::packet::{ParseError, Query};
use skyproto::parser::Parser;

fn framed(mark: &str, payload: &[u8]) -> Vec<u8> {
    let mut bytes = format!("{}{}\n", mark, payload.len()).into_bytes();
    bytes.extend_from_slice(payload);
    bytes.push(b'\n');
    bytes
}

fn packet(groups: &[Vec<Vec<u8>>]) -> Vec<u8> {
    let mut bytes = framed("\r", format!("*{}", groups.len()).as_bytes());
    for group in groups {
        bytes.extend(framed("#", format!("&{}", group.len()).as_bytes()));
        for element in group {
            bytes.extend(framed("#", element));
        }
    }
    bytes
}

fn group(elements: &[&str]) -> Vec<Vec<u8>> {
    elements.iter().map(|e| e.as_bytes().to_vec()).collect()
}

#[test]
fn simple_packet_is_read_back() {
    let get = group(&["GET", "a\nb#\r", ""]);
    let bytes = packet(&[get.clone()]);
    assert_eq!(bytes, b"\r2\n*1\n#2\n&3\n#3\nGET\n#5\na\nb#\r\n#0\n\n".to_vec());
    let (query, next) = Parser::new(&bytes).parse().unwrap();
    assert_eq!(query, Query::SimpleQuery(get));
    assert_eq!(next, bytes.len());
}

#[test]
fn pipelined_packet_is_read_back() {
    let groups = vec![group(&["GET", "x"]), group(&[]), group(&["SET", "sayan", "17"])];
    let bytes = packet(&groups);
    let (query, next) = Parser::new(&bytes).parse().unwrap();
    assert_eq!(query, Query::PipelinedQuery(groups));
    assert_eq!(next, bytes.len());
}

#[test]
fn counts_of_more_than_one_digit() {
    let long = "v".repeat(1234);
    let many: Vec<&str> = vec![long.as_str(); 101];
    let groups = vec![group(&many); 12];
    let bytes = packet(&groups);
    assert_eq!(
        Parser::new(&bytes).parse().unwrap(),
        (Query::PipelinedQuery(groups), bytes.len())
    );
}

#[test]
fn bytes_behind_a_pipeline_are_ignored() {
    let groups = vec![group(&["A"]), group(&["B"])];
    let mut bytes = packet(&groups);
    let end = bytes.len();
    bytes.extend_from_slice(b"\nanything");
    assert_eq!(
        Parser::new(&bytes).parse().unwrap(),
        (Query::PipelinedQuery(groups), end)
    );
}

#[test]
fn stray_byte_behind_a_simple_query() {
    for stray in 0..=255u8 {
        let mut bytes = packet(&[group(&["HEYA"])]);
        let end = bytes.len();
        bytes.push(stray);
        let res = Parser::new(&bytes).parse();
        if stray == b'\r' {
            assert_eq!(res, Ok((Query::SimpleQuery(group(&["HEYA"])), end)));
        } else {
            assert_eq!(res, Err(ParseError::UnexpectedByte));
        }
    }
}

#[test]
fn packets_are_read_in_turn() {
    let first = group(&["GET", "foo"]);
    let second = vec![group(&["DEL", "foo"]), group(&["HEYA"])];
    let mut bytes = packet(&[first.clone()]);
    bytes.extend(packet(&second));
    let (query, next) = Parser::new(&bytes).parse().unwrap();
    assert_eq!(query, Query::SimpleQuery(first));
    let mut parser = Parser::new(&bytes);
    parser.cursor = next;
    assert_eq!(
        parser.parse().unwrap(),
        (Query::PipelinedQuery(second.clone()), bytes.len())
    );
    let rest = &bytes[next..];
    assert_eq!(
        Parser::new(rest).parse().unwrap(),
        (Query::PipelinedQuery(second), rest.len())
    );
}

#[test]
fn partial_packet_is_not_taken() {
    for groups in [vec![group(&["SET", "k", "v"])], vec![group(&["A"]), group(&["B", "C"])]] {
        let bytes = packet(&groups);
        for arrived in 0..bytes.len() {
            match Parser::new(&bytes[..arrived]).try_parse() {
                Some(Ok((_, next))) => assert_eq!(next, arrived + 1),
                Some(Err(e)) => assert_ne!(e, ParseError::BadPacket),
                None => assert!(matches!(bytes[arrived - 1], b'\r' | b'#')),
            }
        }
    }
}

#[test]
fn missing_last_line_feed_is_counted() {
    let bytes = b"\r2\n*1\n#2\n&1\n#4\nHEYA";
    assert_eq!(
        Parser::new(bytes).parse().unwrap(),
        (Query::SimpleQuery(group(&["HEYA"])), bytes.len() + 1)
    );
}

#[test]
fn no_query_is_a_bad_packet() {
    assert_eq!(Parser::new(b"\r2\n*0\n").parse(), Err(ParseError::BadPacket));
    assert_eq!(Parser::new(b"\r4\n*000\n#2\n&1\n").parse(), Err(ParseError::BadPacket));
}

#[test]
fn metaframe_with_a_wrong_length_fails() {
    let metaframe = b"\r1\n*2\n";
    let mut parser = Parser::new(metaframe);
    assert_eq!(
        parser.parse_metaframe_get_datagroup_count(),
        Err(ParseError::UnexpectedByte)
    );
    assert_eq!(parser.cursor, 4);
    assert_eq!(Parser::new(metaframe).parse(), Err(ParseError::UnexpectedByte));
    assert_eq!(
        Parser::new(metaframe).try_parse(),
        Some(Err(ParseError::UnexpectedByte))
    );
}

#[test]
fn metaframe_without_a_digit_announces_nothing() {
    let metaframe = b"\r1\n*\n";
    let mut parser = Parser::new(metaframe);
    assert_eq!(parser.parse_metaframe_get_datagroup_count(), Ok(0));
    assert_eq!(parser.cursor, metaframe.len());
    assert_eq!(Parser::new(metaframe).parse(), Err(ParseError::BadPacket));
    assert_eq!(
        Parser::new(metaframe).try_parse(),
        Some(Err(ParseError::BadPacket))
    );
    assert_eq!(Parser::new(b"\r1\n*").parse(), Err(ParseError::BadPacket));
}

#[test]
fn group_size_without_a_digit_is_zero() {
    let mut parser = Parser::new(b"#1\n&\n");
    assert_eq!(parser.parse_datagroup_get_group_size(), Ok(0));
    assert_eq!(parser.cursor, 5);
}

#[test]
fn buffer_cut_behind_a_packet() {
    let bytes = b"\r2\n*1\n#2\n&1\n#4\nHEYA\n\r2\n*1\n";
    let (query, next) = Parser::new(bytes).parse().unwrap();
    assert_eq!(next, bytes.len() - 6);
    assert_eq!(Parser::new(&bytes[..next]).parse(), Ok((query, next)));
}

#[test]
fn announced_counts_are_obeyed() {
    let mut parser = Parser::new(b"\r2\n*1\n#2\n&2\n#1\na\n#1\nb\n#1\nc\n");
    assert_eq!(parser.parse_metaframe_get_datagroup_count(), Ok(1));
    let mut head = Parser::new(parser.buffer);
    head.cursor = parser.cursor;
    assert_eq!(head.parse_datagroup_get_group_size(), Ok(2));
    assert_eq!(parser.parse_next_actiongroup(), Ok(group(&["a", "b"])));
    assert_eq!(
        Parser::new(parser.buffer).parse(),
        Err(ParseError::UnexpectedByte)
    );
}

#[test]
fn not_enough_elements() {
    assert_eq!(
        Parser::new(b"\r2\n*1\n#2\n&2\n#1\na\n#9\nb\n").parse(),
        Err(ParseError::NotEnough)
    );
    assert_eq!(
        Parser::new(b"\r2\n*1\n#2\n&2\n#1\na\n").parse(),
        Err(ParseError::UnexpectedByte)
    );
    assert_eq!(
        Parser::new(b"\r2\n*2\n#2\n&1\n#1\na\n").parse(),
        Err(ParseError::UnexpectedByte)
    );
}

#[test]
fn wrong_marks() {
    assert_eq!(Parser::new(b"").parse(), Err(ParseError::UnexpectedByte));
    assert_eq!(Parser::new(b"#2\n*1\n").parse(), Err(ParseError::UnexpectedByte));
    assert_eq!(Parser::new(b"\r2\n&1\n").parse(), Err(ParseError::UnexpectedByte));
    assert_eq!(
        Parser::new(b"\r2\n*1\n#2\n*1\n").parse(),
        Err(ParseError::UnexpectedByte)
    );
    assert_eq!(Parser::new(b"\r2x\n*1\n").parse(), Err(ParseError::UnexpectedByte));
    assert_eq!(Parser::new(b"\r3\n*1x\n").parse(), Err(ParseError::UnexpectedByte));
}

#[test]
fn read_until_stays_or_moves() {
    let mut parser = Parser::new(b"abcdef");
    assert_eq!(parser.read_until(2), Ok(&b"ab"[..]));
    assert_eq!(parser.cursor, 2);
    assert_eq!(parser.read_until(5), Err(ParseError::NotEnough));
    assert_eq!(parser.read_until(usize::MAX), Err(ParseError::NotEnough));
    assert_eq!(parser.cursor, 2);
    assert_eq!(parser.read_until(4), Ok(&b"cdef"[..]));
    assert_eq!(parser.read_until(0), Ok(&b""[..]));
    parser.incr_cursor();
    assert_eq!(parser.cursor, 7);
    assert_eq!(parser.read_until(0), Err(ParseError::NotEnough));
}

#[test]
fn read_line_stops_at_the_line_feed() {
    let mut parser = Parser::new(b"one\n\ntwo");
    assert_eq!(parser.read_line(), (0, 3));
    assert_eq!(parser.cursor, 4);
    assert_eq!(parser.read_line(), (4, 4));
    assert_eq!(parser.cursor, 5);
    assert_eq!(parser.read_line(), (5, 8));
    assert_eq!(parser.cursor, 8);
    assert_eq!(parser.read_line(), (8, 8));
    assert_eq!(parser.cursor, 8);
}

#[test]
fn sizelines() {
    let mut parser = Parser::new(b"*12\n#7");
    assert_eq!(parser.read_sizeline(None), Err(ParseError::UnexpectedByte));
    assert_eq!(parser.cursor, 0);
    assert_eq!(parser.read_sizeline(Some(b'*')), Ok(12));
    assert_eq!(parser.cursor, 4);
    assert_eq!(parser.read_sizeline(None), Ok(7));
    assert_eq!(parser.cursor, 6);
    assert_eq!(parser.read_sizeline(None), Err(ParseError::UnexpectedByte));
    let mut parser = Parser::new(b"#1x\n#2\n");
    assert_eq!(parser.read_sizeline(None), Err(ParseError::UnexpectedByte));
    assert_eq!(parser.cursor, 4);
}

#[test]
fn numbers() {
    assert_eq!(Parser::parse_into_usize(b""), Ok(0));
    assert_eq!(Parser::parse_into_usize(b"0"), Ok(0));
    assert_eq!(Parser::parse_into_usize(b"00450"), Ok(450));
    assert_eq!(
        Parser::parse_into_usize(format!("{}", usize::MAX).as_bytes()),
        Ok(usize::MAX)
    );
    for b in 0..=255u8 {
        let expected = if b.is_ascii_digit() {
            Ok((b - b'0') as usize)
        } else {
            Err(ParseError::UnexpectedByte)
        };
        assert_eq!(Parser::parse_into_usize(&[b]), expected);
    }
}

#[test]
fn unanswered_packets() {
    let unanswered: [&[u8]; 6] = [
        b"\r0\n*1\n",
        b"\r\n*1\n",
        b"\r99999999999999999999999999\n*1\n",
        b"\r27\n*99999999999999999999999999\n",
        b"\r2\n*1\n#0\n&1\n",
        b"\r2\n*2\n#2\n&1\n#1\na\n#2\n&1\n#99999999999999999999999999x\n",
    ];
    for bytes in unanswered {
        assert!(!Parser::new(bytes).answers());
        assert_eq!(Parser::new(bytes).try_parse(), None);
    }
    let whole = b"\r2\n*1\n#2\n&1\n#4\nHEYA\n";
    assert!(Parser::new(whole).answers());
    assert_eq!(
        Parser::new(whole).try_parse(),
        Some(Ok((Query::SimpleQuery(group(&["HEYA"])), whole.len())))
    );
    assert_eq!(
        Parser::new(b"\r5\n").try_parse(),
        Some(Err(ParseError::NotEnough))
    );
}
