use skyproto::packet::{ParseError, Query};
use skyproto::parser::Parser;

#[test]
fn test_sizeline_parse() {
    let sizeline = "#125\n".as_bytes();
    let mut parser = Parser::new(&sizeline);
    assert_eq!(125, parser.read_sizeline(None).unwrap());
    assert_eq!(parser.cursor, sizeline.len());
}

#[test]
#[should_panic]
fn test_fail_sizeline_parse_wrong_firstbyte() {
    let sizeline = "125\n".as_bytes();
    let mut parser = Parser::new(&sizeline);
    parser.read_sizeline(None).unwrap();
}

#[test]
fn test_metaframe_parse() {
    let metaframe = "\r2\n*2\n".as_bytes();
    let mut parser = Parser::new(&metaframe);
    assert_eq!(2, parser.parse_metaframe_get_datagroup_count().unwrap());
    assert_eq!(parser.cursor, metaframe.len());
}

#[test]
#[should_panic]
fn test_metaframe_parse_fail() {
    // First byte should be CR and not $
    let metaframe = "$2\n*2\n".as_bytes();
    let mut parser = Parser::new(&metaframe);
    parser.parse_metaframe_get_datagroup_count().unwrap();
    // Give a wrong length approximation
    let metaframe = "\r1\n*2\n".as_bytes();
    Parser::new(&metaframe)
        .parse_metaframe_get_datagroup_count()
        .unwrap();
}

#[test]
fn test_actiongroup_size_parse() {
    let dataframe_layout = "#6\n&12345\n".as_bytes();
    let mut parser = Parser::new(&dataframe_layout);
    assert_eq!(12345, parser.parse_datagroup_get_group_size().unwrap());
    assert_eq!(parser.cursor, dataframe_layout.len());
}

#[test]
fn test_read_datagroup_element() {
    let element_with_block = "#5\nsayan\n".as_bytes();
    let mut parser = Parser::new(&element_with_block);
    assert_eq!(
        String::from("sayan").into_bytes(),
        parser.parse_next_datagroup_element().unwrap()
    );
    assert_eq!(parser.cursor, element_with_block.len());
}

#[test]
fn test_parse_actiongroup_single() {
    let actiongroup = "#2\n&2\n#3\nGET\n#5\nsayan\n".as_bytes();
    let mut parser = Parser::new(&actiongroup);
    assert_eq!(
        vec![
            String::from("GET").into_bytes(),
            String::from("sayan").into_bytes()
        ],
        parser.parse_next_actiongroup().unwrap()
    );
    assert_eq!(parser.cursor, actiongroup.len());
}

#[test]
fn test_complete_query_packet_parse() {
    let query_packet = "\r2\n*1\n#2\n&2\n#3\nGET\n#3\nfoo\n".as_bytes();
    let (res, forward_by) = Parser::new(&query_packet).parse().unwrap();
    assert_eq!(
        res,
        Query::SimpleQuery(vec![
            "GET".as_bytes().to_owned(),
            "foo".as_bytes().to_owned()
        ])
    );
    assert_eq!(forward_by, query_packet.len());
}

#[test]
#[should_panic]
fn test_query_parse_fail() {
    // this packet has an extra \n, where it should have been nothing or a \r
    let query_packet = "\r2\n*1\n#2\n&2\n#3\nGET\n#3\nfoo\n\n".as_bytes();
    Parser::new(&query_packet).parse().unwrap();
}

#[test]
fn test_query_parse_pass_part_of_next_query() {
    // we read a part of the next query, we should happily ignore it (`\r2\n*1\n`)
    let query_packet = "\r2\n*1\n#2\n&2\n#3\nGET\n#3\nfoo\n\r2\n*1\n".as_bytes();
    let (ret, forward_by) = Parser::new(&query_packet).parse().unwrap();
    assert_eq!(
        ret,
        Query::SimpleQuery(vec![
            "GET".to_owned().into_bytes(),
            "foo".to_owned().into_bytes()
        ])
    );
    // the cursor should be at the '\n' byte
    assert!(forward_by == query_packet.len() - "\r2\n*1\n".len());
}

#[test]
fn test_query_fail_not_enough() {
    let query_packet = "\r2".as_bytes();
    assert_eq!(
        Parser::new(&query_packet).parse().err().unwrap(),
        ParseError::NotEnough
    );
}