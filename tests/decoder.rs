use plaintalk::pullparser::{Message, PullParser};

fn data(bytes: &[u8]) -> Vec<u8> {
    bytes.to_vec()
}

fn buffer_message(message: &mut Message) -> Vec<String> {
    let mut parsed_message = Vec::new();
    while let Ok(Some(mut field)) = message.get_field() {
        let mut buffer = Vec::new();
        field.read_to_end(&mut buffer).unwrap();
        parsed_message.push(String::from_utf8(buffer).unwrap());
    }
    parsed_message
}

fn buffer_all_messages(parser: &mut PullParser) -> Vec<Vec<String>> {
    let mut parsed_messages = Vec::new();
    while let Ok(Some(mut message)) = parser.get_message() {
        parsed_messages.push(buffer_message(&mut message));
    }
    parsed_messages
}

fn read_string(message: &mut Message) -> String {
    let mut buffer = Vec::new();
    message.get_field().unwrap().unwrap().read_to_end(&mut buffer).unwrap();
    String::from_utf8(buffer).unwrap()
}

#[test]
fn test_it_works() {
    let mut parser = PullParser::new(data(b"0 ape katt lol"));

    let mut message = parser.get_message().unwrap().unwrap();

    assert_eq!("0", read_string(&mut message));
    assert_eq!("ape", read_string(&mut message));
    assert_eq!("katt", read_string(&mut message));
}

#[test]
fn test_it_can_parse_several_messages() {
    let mut parser = PullParser::new(data(b"0 ape katt\n1 tam ape\n2 lol\n"));

    assert_eq!(
        vec![
            vec!["0", "ape", "katt"],
            vec!["1", "tam", "ape"],
            vec!["2", "lol"],
            vec![""],
        ],
        buffer_all_messages(&mut parser)
    );
}

#[test]
fn test_it_can_parse_escape_sequences() {
    let mut parser = PullParser::new(data(b"{6}0{1} a{10}pe katt\nlol fie{3}ld 2\n"));

    assert_eq!(
        vec!["0{1} ape katt\nlol", "field 2"],
        buffer_message(&mut parser.get_message().unwrap().unwrap())
    );
}

#[test]
fn test_it_handles_escape_overflow() {
    let mut parser = PullParser::new(data(b"{9000000000000000000000}blahblah\n"));
    let mut buffer = Vec::new();
    let result = parser
        .get_message()
        .unwrap()
        .unwrap()
        .get_field()
        .unwrap()
        .unwrap()
        .read_to_end(&mut buffer);
    assert!(result.is_err());
}

#[test]
fn test_it_understands_crlf() {
    let mut parser = PullParser::new(data(b"0 ape\r\n1 katt\r\n"));

    assert_eq!(
        vec![vec!["0", "ape"], vec!["1", "katt"], vec![""],],
        buffer_all_messages(&mut parser)
    );
}

#[test]
fn test_it_can_ignore_a_field() {
    let mut parser = PullParser::new(data(b"field1 field2\n"));

    let mut message = parser.get_message().unwrap().unwrap();

    message.get_field().unwrap().unwrap().ignore_rest().unwrap();

    assert_eq!("field2", read_string(&mut message));
}

#[test]
fn test_it_can_ignore_a_message() {
    let mut parser = PullParser::new(data(b"msg1 msg1field2\nmsg2 msg2field2\n"));

    {
        let mut message = parser.get_message().unwrap().unwrap();
        assert_eq!("msg1", read_string(&mut message));
        message.ignore_rest().unwrap();
    }

    {
        let mut message = parser.get_message().unwrap().unwrap();
        assert_eq!("msg2", read_string(&mut message));
        message.ignore_rest().unwrap();
    }
}

#[test]
fn test_message_can_buffer_a_field() {
    let mut parser = PullParser::new(data(b"0 protocol lol\n"));

    let mut message = parser.get_message().unwrap().unwrap();

    {
        let buffer = &mut [0u8; 8];
        let len = message.read_field(buffer).unwrap().unwrap();
        assert_eq!(b"0".to_vec(), buffer[0..len].to_vec());
    }

    {
        let buffer = &mut [0u8; 8];
        let len = message.read_field(buffer).unwrap().unwrap();
        assert_eq!(b"protocol".to_vec(), buffer[0..len].to_vec());
    }
}

#[test]
fn test_message_can_detect_overflow_when_buffering_a_field() {
    let mut parser = PullParser::new(data(b"protocol\n"));

    let mut message = parser.get_message().unwrap().unwrap();

    {
        let buffer = &mut [0u8; 4];
        assert!(message.read_field(buffer).is_err());
    }
}

#[test]
fn test_message_can_read_field_to_end() {
    let mut parser = PullParser::new(data(b"0 protocol\n"));

    let mut message = parser.get_message().unwrap().unwrap();

    {
        let mut buffer = Vec::new();
        message.read_field_to_end(&mut buffer).unwrap().unwrap();
        assert_eq!(b"0".to_vec(), buffer);
    }

    {
        let mut buffer = Vec::new();
        message.read_field_to_end(&mut buffer).unwrap().unwrap();
        assert_eq!(b"protocol".to_vec(), buffer);
    }

    {
        let mut buffer = Vec::new();
        let result = message.read_field_to_end(&mut buffer).unwrap();
        assert!(result.is_none());
    }
}

#[test]
fn test_message_can_read_field_as_string() {
    let mut parser = PullParser::new(data(b"0 protocol\n"));

    let mut message = parser.get_message().unwrap().unwrap();

    assert_eq!("0", message.read_field_as_string().unwrap().unwrap());
    assert_eq!("protocol", message.read_field_as_string().unwrap().unwrap());
}

#[test]
fn test_message_can_read_field_as_slice() {
    let mut parser = PullParser::new(data(b"0 protocol\n"));

    let mut message = parser.get_message().unwrap().unwrap();
    let mut buffer = [0u8; 10];

    assert_eq!(b"0", message.read_field_as_slice(&mut buffer).unwrap().unwrap());
    assert_eq!(b"protocol", message.read_field_as_slice(&mut buffer).unwrap().unwrap());
}

#[test]
fn test_message_can_tell_if_it_is_at_the_end() {
    let mut parser = PullParser::new(data(b"0 protocol\n"));

    let mut message = parser.get_message().unwrap().unwrap();

    assert_eq!(false, message.at_end());
    message.read_field_as_string().unwrap();
    assert_eq!(false, message.at_end());
    message.read_field_as_string().unwrap();
    assert_eq!(true, message.at_end());
}

#[test]
fn test_parser_can_read_a_message() {
    let mut parser = PullParser::new(data(b"0 protocol lol\n2 lol\n"));

    assert_eq!(
        [b"0".to_vec(), b"protocol".to_vec(), b"lol".to_vec()].to_vec(),
        parser.read_message().unwrap().unwrap()
    );
    assert_eq!([b"2".to_vec(), b"lol".to_vec()].to_vec(), parser.read_message().unwrap().unwrap());
}

#[test]
fn it_ignores_empty_lines() {
    let mut parser = PullParser::new(data(b"0 protocol lol\n\n{}\n{0}{00}{000}\n2 lol\n"));

    assert_eq!(
        [b"0".to_vec(), b"protocol".to_vec(), b"lol".to_vec()].to_vec(),
        parser.read_message().unwrap().unwrap()
    );
    assert_eq!([b"2".to_vec(), b"lol".to_vec()].to_vec(), parser.read_message().unwrap().unwrap());
}
