use skyproto::metaline::{ActionType, PreQMF, RespCodes};
use skyproto::reading::{Action, Event, Refusal, Stage};
use skyproto::text::{characters, parse_usize, split, trim, Padding};

#[test]
fn test_preqmf() {
    let read_what = "*!12!4".to_owned();
    let preqmf = PreQMF::from_buffer(read_what).unwrap();
    let pqmf_should_be = PreQMF {
        action_type: ActionType::Simple,
        content_size: 12,
        metaline_size: 4,
    };
    assert_eq!(pqmf_should_be, preqmf);
    let a_pipe = "$!12!4".to_owned();
    let preqmf = PreQMF::from_buffer(a_pipe).unwrap();
    let pqmf_should_be = PreQMF {
        action_type: ActionType::Pipeline,
        content_size: 12,
        metaline_size: 4,
    };
    assert_eq!(preqmf, pqmf_should_be);
}

fn announced(content_size: usize, metaline_size: usize) -> Result<PreQMF, RespCodes> {
    Ok(PreQMF {
        action_type: ActionType::Simple,
        content_size,
        metaline_size,
    })
}

fn read(line: &str) -> Result<PreQMF, RespCodes> {
    PreQMF::from_buffer(line.to_owned())
}

#[test]
fn padding_does_not_count() {
    assert_eq!(read("*!12!4\n"), announced(12, 4));
    assert_eq!(read("*! \t12\0\0 !\u{3000}\0\0004\0\r\n"), announced(12, 4));
    assert_eq!(read("*!+12!0004"), announced(12, 4));
}

#[test]
fn further_fields_do_not_count() {
    assert_eq!(read("*!12!4!"), announced(12, 4));
    assert_eq!(read("*!12!4!x!y"), announced(12, 4));
    assert_eq!(read("*rest of the field!12!4"), announced(12, 4));
}

#[test]
fn metaline_is_read_back() {
    for size in [0, 9, 10, 4096, usize::MAX] {
        assert_eq!(read(&format!("*!{}!{}\n", size, size / 3)), announced(size, size / 3));
    }
}

#[test]
fn invalid_metalines() {
    let lines = [
        "", "*", "*!12", "!12!4", " *!12!4", "#!12!4", "*!!4", "*!12!", "*!-12!4", "*!1 2!4",
        "*!+!4", "*!12\n\0!4", "*!\0 12!4", "*!12!4x", "*!1_2!4", "*!\u{664}!4",
        "*!99999999999999999999999999!4",
    ];
    for line in lines {
        assert_eq!(read(line), Err(RespCodes::InvalidMetaframe), "{:?}", line);
    }
}

#[test]
fn white_space_is_that_of_unicode() {
    for code in 0..=0x10FFFFu32 {
        if let Some(c) = char::from_u32(code) {
            assert_eq!(Padding::WhiteSpace.contains(c), c.is_whitespace());
            assert_eq!(Padding::Nul.contains(c), c == char::from(0));
        }
    }
}

fn string(chars: &[char]) -> String {
    chars.iter().collect()
}

#[test]
fn fields_trimming_and_numbers() {
    let texts = [
        "", "!", "a!b", "!!x! y !", "  ", "\0\0", " \0 12\0 ", "12", "+12", "++1", "+", "-1",
        "\u{85}7\u{A0}", "18446744073709551615", "18446744073709551616", "4294967296", "0x1",
        "\u{FF11}", "007",
    ];
    for text in texts {
        let chars = characters(text);
        assert_eq!(string(&chars), text);
        let fields: Vec<String> = split(&chars, '!').into_iter().map(string).collect();
        let expected: Vec<&str> = text.split('!').collect();
        assert_eq!(fields, expected);
        assert_eq!(string(trim(&chars, Padding::WhiteSpace)), text.trim());
        assert_eq!(
            string(trim(&chars, Padding::Nul)),
            text.trim_matches(char::from(0))
        );
        assert_eq!(parse_usize(&chars), text.parse::<usize>().ok());
    }
}

#[test]
fn query_takes_four_steps() {
    let (stage, action) = Stage::Metaline.step::<u8>(Event::Metaline("$!9!5\n".to_owned()));
    assert!(matches!(action, Action::ReadLayout(5)));
    let (stage, action) = stage.step::<u8>(Event::Sizes(Ok(vec![3, 5])));
    assert!(matches!(action, Action::ReadDataframe(9)));
    let (stage, action) = stage.step::<u8>(Event::Dataframe(b"GET\nsayan".to_vec()));
    match action {
        Action::Extract(bytes, sizes) => {
            assert_eq!(bytes, b"GET\nsayan".to_vec());
            assert_eq!(sizes, vec![3, 5]);
        }
        other => panic!("{:?}", other),
    }
    let data = vec!["GET".to_owned(), "sayan".to_owned()];
    let (stage, action) = stage.step::<u8>(Event::Identifiers(data.clone()));
    assert!(matches!(stage, Stage::Closed));
    match action {
        Action::Run(query) => {
            assert_eq!(query.data, data);
            assert_eq!(query.actiontype, ActionType::Pipeline);
        }
        other => panic!("{:?}", other),
    }
}

#[test]
fn refused_queries() {
    let (stage, action) = Stage::Metaline.step::<u8>(Event::Metaline("?!9!5\n".to_owned()));
    assert!(matches!(stage, Stage::Closed));
    assert!(matches!(
        action,
        Action::Refuse(Refusal::Metaline(RespCodes::InvalidMetaframe))
    ));
    let (stage, _) = Stage::Metaline.step::<u8>(Event::Metaline("*!9!5\n".to_owned()));
    let (stage, action) = stage.step::<u8>(Event::Sizes(Err(7)));
    assert!(matches!(stage, Stage::Closed));
    assert!(matches!(action, Action::Refuse(Refusal::Layout(7))));
}
