use plaintalk::pullparser::{parse_escape_header, Error, Field, PullParser};
use plaintalk::pushgenerator::{self, should_escape, PushGenerator};
use plaintalk::pushparser::{
    push_events, Event, PlainTalkParser, PlainTalkParserListener, PushParserState,
};
use plaintalk::wire::Violation;

fn decode_all(bytes: &[u8]) -> Result<Vec<Vec<Vec<u8>>>, Error> {
    let mut parser = PullParser::new(bytes.to_vec());
    let mut messages = Vec::new();
    while let Some(message) = parser.read_message()? {
        messages.push(message);
    }
    Ok(messages)
}

fn encode(fields: &[&[u8]]) -> Vec<u8> {
    let mut generator = PushGenerator::new(Vec::new());
    generator.write_message(fields).unwrap();
    generator.into_inner()
}

#[test]
fn round_trip_keeps_reserved_bytes_and_long_fields() {
    let long: Vec<u8> = (0..150u32).map(|i| (i % 256) as u8).collect();
    let fields: Vec<&[u8]> = vec![b"", b"a{b", b"sp ace", b"cr\rlf\n", &long, b"plain", b"}"];
    let mut bytes = encode(&fields);
    bytes.extend_from_slice(&encode(&[b"next"]));
    let decoded = decode_all(&bytes).unwrap();
    let expected: Vec<Vec<u8>> = fields.iter().map(|f| f.to_vec()).collect();
    assert_eq!(vec![expected, vec![b"next".to_vec()]], decoded);
}

#[test]
fn short_plain_fields_are_not_escaped() {
    let hundred = [b'x'; 100];
    assert!(!should_escape(&hundred));
    assert!(should_escape(&[b'x'; 101]));
    assert!(!should_escape(b"a}b"));
    assert_eq!(b"abc\n".to_vec(), encode(&[b"abc"]));
    let mut expected = hundred.to_vec();
    expected.push(b'\n');
    assert_eq!(expected, encode(&[&hundred]));
    let mut long = b"{101}".to_vec();
    long.extend_from_slice(&[b'x'; 101]);
    long.push(b'\n');
    assert_eq!(long, encode(&[&[b'x'; 101]]));
}

#[test]
fn escape_run_is_copied_verbatim() {
    let decoded = decode_all(b"{7}a b\r\n{c\n").unwrap();
    assert_eq!(vec![vec![b"a b\r\n{c".to_vec()]], decoded);
}

#[test]
fn escape_header_overflow_is_reported() {
    assert_eq!(Err(Violation::EscapeOverflow), parse_escape_header(b"{99999999999999999999999}", 1));
    assert_eq!(Ok((123, 5)), parse_escape_header(b"{123}x", 1));
    assert_eq!(Ok((0, 2)), parse_escape_header(b"{}", 1));
    assert_eq!(Err(Violation::InvalidSymbol), parse_escape_header(b"{12x}", 1));
    assert_eq!(Err(Violation::InvalidSymbol), parse_escape_header(b"{12", 1));
    let mut parser = PullParser::new(b"{18446744073709551616}x\n".to_vec());
    assert_eq!(Err(Error::Protocol(Violation::EscapeOverflow)), parser.read_message());
    assert_eq!(Err(Error::Protocol(Violation::EscapeOverflow)), parser.read_message());
}

#[test]
fn field_in_progress_blocks_the_next_field() {
    let mut parser = PullParser::new(b"abcdef gh\n".to_vec());
    let mut message = parser.get_message().unwrap().unwrap();
    {
        let mut field = message.get_field().unwrap().unwrap();
        let mut buf = [0u8; 2];
        assert_eq!(Ok(2), field.read(&mut buf));
        assert_eq!(b"ab", &buf);
    }
    assert!(matches!(message.get_field(), Err(Error::FieldInProgress)));
    assert_eq!(Err(Error::FieldInProgress), message.read_field_to_end(&mut Vec::new()));
    Field::new(&mut *message.parser).ignore_rest().unwrap();
    assert_eq!(Some("gh".to_string()), message.read_field_as_string().unwrap());
    assert!(message.at_end());
}

#[test]
fn two_empty_fields_round_trip() {
    let mut bytes = encode(&[b"", b""]);
    bytes.extend_from_slice(b"a\n");
    assert_eq!(
        vec![vec![Vec::new(), Vec::new()], vec![b"a".to_vec()]],
        decode_all(&bytes).unwrap()
    );
    assert_eq!(
        vec![vec![b"".to_vec(), b"".to_vec()], vec![b"a".to_vec()]],
        decode_all(b" \na\n").unwrap()
    );
    assert_eq!(
        vec![vec![b"".to_vec(), b"".to_vec(), b"b".to_vec()]],
        decode_all(b"{0} {0} b\n").unwrap()
    );
}

#[test]
fn later_empty_field_ends_at_line_break() {
    let mut parser = PullParser::new(b" \na\n".to_vec());
    let mut message = parser.get_message().unwrap().unwrap();
    message.get_field().unwrap().unwrap().ignore_rest().unwrap();
    {
        let mut field = message.get_field().unwrap().unwrap();
        let mut buffer = [0u8; 4];
        assert_eq!(Ok(0), field.read(&mut buffer));
    }
    assert!(message.at_end());
    assert!(message.get_field().unwrap().is_none());
}

#[test]
fn blank_line_yields_no_message() {
    let decoded = decode_all(b"0 protocol lol\n\n2 lol\n").unwrap();
    assert_eq!(
        vec![
            vec![b"0".to_vec(), b"protocol".to_vec(), b"lol".to_vec()],
            vec![b"2".to_vec(), b"lol".to_vec()],
        ],
        decoded
    );
}

#[test]
fn crlf_decodes_like_lf() {
    assert_eq!(decode_all(b"0 ape\n1 katt\n"), decode_all(b"0 ape\r\n1 katt\r\n"));
    assert_eq!(2, decode_all(b"0 ape\r\n1 katt\r\n").unwrap().len());
}

#[test]
fn encodes_plain_message() {
    assert_eq!(b"0 lol\n".to_vec(), encode(&[b"0", b"lol"]));
}

#[test]
fn encodes_empty_fields() {
    assert_eq!(b"{0} {0}\n".to_vec(), encode(&[b"", b""]));
    assert_eq!(b"\n".to_vec(), encode(&[]));
}

#[test]
fn escape_sequences_decode_to_two_fields() {
    let decoded = decode_all(b"{6}0{1} a{10}pe katt\nlol fie{3}ld 2\n").unwrap();
    assert_eq!(vec![vec![b"0{1} ape katt\nlol".to_vec(), b"field 2".to_vec()]], decoded);
}

#[test]
fn overflow_keeps_the_stream_in_step() {
    let mut parser = PullParser::new(b"protocol next\nsecond\n".to_vec());
    {
        let mut message = parser.get_message().unwrap().unwrap();
        let mut buffer = [0u8; 4];
        assert_eq!(Err(Error::Overflow), message.read_field(&mut buffer));
        assert_eq!(b"prot", &buffer);
        assert!(!message.at_end());
        assert_eq!(Some("next".to_string()), message.read_field_as_string().unwrap());
        assert!(message.at_end());
    }
    assert_eq!(Some(vec![b"second".to_vec()]), parser.read_message().unwrap());
    assert_eq!(None, parser.read_message().unwrap());
}

#[test]
fn overflow_on_the_only_field() {
    let mut parser = PullParser::new(b"protocol\n".to_vec());
    {
        let mut message = parser.get_message().unwrap().unwrap();
        assert_eq!(Err(Error::Overflow), message.read_field(&mut [0u8; 4]));
        assert!(message.at_end());
    }
    assert_eq!(None, parser.read_message().unwrap());
}

#[test]
fn exact_fit_is_no_overflow() {
    let mut parser = PullParser::new(b"abcd e\n".to_vec());
    let mut message = parser.get_message().unwrap().unwrap();
    let mut buffer = [0u8; 4];
    assert_eq!(Ok(Some(4)), message.read_field(&mut buffer));
    let mut empty: [u8; 0] = [];
    assert_eq!(Err(Error::Overflow), message.read_field(&mut empty));
    assert!(message.at_end());
}

#[test]
fn violations_are_reported_and_sticky() {
    assert_eq!(Err(Error::Protocol(Violation::InvalidSymbol)), decode_all(b"a{x}\n"));
    assert_eq!(Err(Error::Protocol(Violation::InvalidByteAfterCr)), decode_all(b"a\rb\n"));
    assert_eq!(Err(Error::Protocol(Violation::UnexpectedEof)), decode_all(b"ab"));
    assert_eq!(Err(Error::Protocol(Violation::UnexpectedEof)), decode_all(b"{5}ab"));
    let mut parser = PullParser::new(b"ok\na\rb\nmore\n".to_vec());
    assert_eq!(Some(vec![b"ok".to_vec()]), parser.read_message().unwrap());
    assert_eq!(Err(Error::Protocol(Violation::InvalidByteAfterCr)), parser.read_message());
    assert!(matches!(parser.get_message(), Err(Error::Protocol(Violation::InvalidByteAfterCr))));
}

#[test]
fn partial_field_is_delivered_before_the_violation() {
    let mut parser = PullParser::new(b"abc\rx\n".to_vec());
    let mut message = parser.get_message().unwrap().unwrap();
    let mut field = message.get_field().unwrap().unwrap();
    let mut buffer = [0u8; 16];
    assert_eq!(Ok(3), field.read(&mut buffer));
    assert_eq!(b"abc", &buffer[0..3]);
    assert_eq!(Err(Error::Protocol(Violation::InvalidByteAfterCr)), field.read(&mut buffer));
}

#[test]
fn a_read_consumes_no_more_than_it_returns() {
    let mut parser = PullParser::new(b"ab{0}{0} c\n".to_vec());
    let mut message = parser.get_message().unwrap().unwrap();
    {
        let mut field = message.get_field().unwrap().unwrap();
        let mut empty: [u8; 0] = [];
        assert_eq!(Ok(0), field.read(&mut empty));
        let mut buffer = [0u8; 2];
        assert_eq!(Ok(2), field.read(&mut buffer));
        assert_eq!(b"ab", &buffer);
        assert_eq!(Ok(0), field.read(&mut buffer));
    }
    assert_eq!(Some("c".to_string()), message.read_field_as_string().unwrap());
}

#[test]
fn reads_in_small_pieces() {
    let mut parser = PullParser::new(b"ab{4}c de f\n".to_vec());
    let mut message = parser.get_message().unwrap().unwrap();
    let mut field = message.get_field().unwrap().unwrap();
    let mut out = Vec::new();
    let mut buffer = [0u8; 2];
    loop {
        let n = field.read(&mut buffer).unwrap();
        if n == 0 {
            break;
        }
        out.extend_from_slice(&buffer[0..n]);
    }
    assert_eq!(b"abc de".to_vec(), out);
    assert_eq!(Ok(0), field.read(&mut buffer));
}

#[test]
fn text_fields_must_be_utf8() {
    let mut parser = PullParser::new("h\u{e9}llo \u{ff}x\n".as_bytes().to_vec());
    let mut message = parser.get_message().unwrap().unwrap();
    assert_eq!(Some("h\u{e9}llo".to_string()), message.read_field_as_string().unwrap());
    let mut parser = PullParser::new(b"\xff\xfe x\n".to_vec());
    let mut message = parser.get_message().unwrap().unwrap();
    assert_eq!(Err(Error::InvalidUtf8), message.read_field_as_string());
    assert_eq!(Some("x".to_string()), message.read_field_as_string().unwrap());
}

#[test]
fn end_of_stream_is_clean_at_a_boundary() {
    let mut parser = PullParser::new(Vec::new());
    assert_eq!(None, parser.read_message().unwrap());
    assert!(parser.get_message().unwrap().is_none());
    let mut parser = PullParser::new(b"\n\r\n".to_vec());
    assert_eq!(None, parser.read_message().unwrap());
}

#[test]
fn dropped_writers_are_finished_by_their_parent() {
    let mut generator = PushGenerator::new(b"> ".to_vec());
    {
        let mut message = generator.next_message().unwrap();
        message.write_field(b"a").unwrap();
        drop(message);
    }
    generator.write_message(&[b"x"]).unwrap();
    {
        let mut message = generator.next_message().unwrap();
        {
            let field = message.next_field().unwrap();
            drop(field);
        }
        message.write_field(b"y").unwrap();
        {
            let mut field = message.next_field().unwrap();
            field.write(b"z").unwrap();
            drop(field);
        }
    }
    assert!(generator.auto_flush());
    assert_eq!(Ok(()), generator.flush());
    assert_eq!(b"> a\nx\n{0} y z\n".to_vec(), generator.into_inner());

    let mut generator = PushGenerator::new(Vec::new());
    {
        let mut message = generator.next_message().unwrap();
        let field = message.next_field().unwrap();
        drop(field);
    }
    assert_eq!(b"{0}\n".to_vec(), generator.into_inner());
}

#[test]
fn field_writes_report_their_length() {
    let mut generator = PushGenerator::new(Vec::new());
    let mut message = generator.next_message().unwrap();
    let mut field = message.next_field().unwrap();
    assert_eq!(Ok(3), field.write(b"a b"));
    assert_eq!(Ok(0), field.write(b""));
    assert_eq!(Ok(()), field.flush());
    field.close();
    assert_eq!(Ok(()), message.flush());
    message.finish();
    assert_eq!(b"{3}a b\n".to_vec(), generator.into_inner());
}

struct Counter {
    events: std::cell::Cell<usize>,
}

impl PlainTalkParserListener for Counter {
    fn start_message(&self) {
        self.events.set(self.events.get() + 1);
    }
    fn end_message(&self) {
        self.events.set(self.events.get() + 1);
    }
    fn start_field(&self) {}
    fn field_data(&self, _data: &[u8]) {}
    fn end_field(&self) {}
}

#[test]
fn push_parser_takes_crlf() {
    let listener = Counter { events: std::cell::Cell::new(0) };
    let mut parser = PlainTalkParser::new(&listener);
    parser.eat_this(b"a\r");
    parser.eat_this(b"\nb\r\n");
    assert_eq!(4, listener.events.get());
}

#[test]
fn errors_describe_themselves() {
    assert_eq!("Overflow", Error::Overflow.description());
    assert_eq!("Unexpected EOF", Error::Protocol(Violation::UnexpectedEof).description());
    assert_eq!(
        "Overflow in PlainTalk escape sequence",
        Error::Protocol(Violation::EscapeOverflow).description()
    );
    assert_eq!(
        "Finish message before starting a new one",
        pushgenerator::Error::MessageInProgress.description()
    );
}

#[test]
fn messages_decode_as_bytes_arrive() {
    let input = b"0 a{3}b c\r\nnext\n";
    let mut parser = PullParser::incremental();
    let mut messages = Vec::new();
    let mut fed = 0;
    loop {
        match parser.read_message() {
            Ok(Some(message)) => messages.push(message),
            Ok(None) => break,
            Err(Error::NeedInput) => {
                if fed < input.len() {
                    parser.feed(&input[fed..fed + 1]);
                    fed += 1;
                } else {
                    parser.end_input();
                }
            }
            Err(e) => panic!("unexpected {:?}", e),
        }
    }
    assert_eq!(
        vec![vec![b"0".to_vec(), b"ab c".to_vec()], vec![b"next".to_vec()]],
        messages
    );
}

#[test]
fn first_message_is_read_before_the_source_ends() {
    let mut parser = PullParser::incremental();
    assert_eq!(Err(Error::NeedInput), parser.read_message());
    parser.feed(b"hello wor");
    assert_eq!(Err(Error::NeedInput), parser.read_message());
    parser.feed(b"ld\nbye");
    assert_eq!(Some(vec![b"hello".to_vec(), b"world".to_vec()]), parser.read_message().unwrap());
    assert_eq!(Err(Error::NeedInput), parser.read_message());
    parser.end_input();
    assert_eq!(Err(Error::Protocol(Violation::UnexpectedEof)), parser.read_message());
}

#[test]
fn field_reads_resume_after_more_bytes() {
    let mut parser = PullParser::incremental();
    parser.feed(b"ab{4}c");
    let mut message = parser.get_message().unwrap().unwrap();
    let mut out = Vec::new();
    {
        let mut field = message.get_field().unwrap().unwrap();
        let mut buffer = [0u8; 16];
        assert_eq!(Ok(3), field.read(&mut buffer));
        out.extend_from_slice(&buffer[0..3]);
        assert_eq!(Err(Error::NeedInput), field.read(&mut buffer));
        field.parser.feed(b" d");
        assert_eq!(Ok(2), field.read(&mut buffer));
        out.extend_from_slice(&buffer[0..2]);
        field.parser.feed(b"e\r");
        assert_eq!(Ok(1), field.read(&mut buffer));
        out.extend_from_slice(&buffer[0..1]);
        assert_eq!(Err(Error::NeedInput), field.read(&mut buffer));
        field.parser.feed(b"\n");
        assert_eq!(Ok(0), field.read(&mut buffer));
    }
    assert_eq!(b"abc de".to_vec(), out);
    assert!(message.at_end());
}

#[test]
fn whole_field_reads_wait_for_the_whole_field() {
    let mut parser = PullParser::incremental();
    parser.feed(b"{12}0123");
    let mut message = parser.get_message().unwrap().unwrap();
    let mut buffer = b"x".to_vec();
    assert_eq!(Err(Error::NeedInput), message.read_field_to_end(&mut buffer));
    assert_eq!(b"x".to_vec(), buffer);
    message.parser.feed(b"456789ab more\n");
    assert_eq!(Ok(Some(12)), message.read_field_to_end(&mut buffer));
    assert_eq!(b"x0123456789ab".to_vec(), buffer);
    let mut small = [0u8; 2];
    assert_eq!(Err(Error::Overflow), message.read_field(&mut small));
    assert!(message.at_end());
}

#[test]
fn unread_message_blocks_the_next_one() {
    let mut parser = PullParser::new(b"a b\nc\n".to_vec());
    {
        let mut message = parser.get_message().unwrap().unwrap();
        assert_eq!(Some("a".to_string()), message.read_field_as_string().unwrap());
    }
    assert!(matches!(parser.get_message(), Err(Error::MessageInProgress)));
    assert_eq!(Err(Error::MessageInProgress), parser.read_message());
    plaintalk::pullparser::Message::new(&mut parser).ignore_rest().unwrap();
    assert_eq!(Some(vec![b"c".to_vec()]), parser.read_message().unwrap());
}

#[test]
fn push_events_are_exact() {
    let (state, events) = push_events(PushParserState::ExpectMessage, b"ab c\r");
    assert_eq!(PushParserState::ExpectLineFeed, state);
    assert_eq!(
        vec![
            Event::StartMessage,
            Event::StartField,
            Event::FieldData(0, 2),
            Event::EndField,
            Event::StartField,
            Event::FieldData(3, 4),
            Event::EndField,
            Event::EndMessage,
        ],
        events
    );
    let (state, events) = push_events(state, b"\nx");
    assert_eq!(PushParserState::ExpectFieldData, state);
    assert_eq!(vec![Event::StartMessage, Event::StartField, Event::FieldData(1, 2)], events);
    let (state, events) = push_events(PushParserState::ExpectLineFeed, b"x\n");
    assert_eq!(PushParserState::Failed, state);
    assert!(events.is_empty());
}
