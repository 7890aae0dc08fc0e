use std::cell::RefCell;

use plaintalk::pushparser::{PlainTalkParser, PlainTalkParserListener};

struct TestPlainTalkParserListener {
    events: RefCell<Vec<String>>,
}

impl PlainTalkParserListener for TestPlainTalkParserListener {
    fn start_message(&self) {
        self.events.borrow_mut().push("start_message".to_string());
    }

    fn end_message(&self) {
        self.events.borrow_mut().push("end_message".to_string());
    }

    fn start_field(&self) {
        self.events.borrow_mut().push("start_field".to_string());
    }

    fn field_data(&self, data: &[u8]) {
        self.events.borrow_mut().push(format!("field_data {}", String::from_utf8_lossy(data)));
    }

    fn end_field(&self) {
        self.events.borrow_mut().push("end_field".to_string());
    }
}

#[test]
fn pushparser_it_works() {
    let listener = TestPlainTalkParserListener { events: RefCell::new(Vec::new()) };
    {
        let mut parser = PlainTalkParser::new(&listener);
        parser.eat_this(b"OMG POP\n");
        parser.eat_this(b"korn");
        parser.eat_this(b"flaeks\n");
    }
    let expected: Vec<String> = vec![
        "start_message",
        "start_field",
        "field_data OMG",
        "end_field",
        "start_field",
        "field_data POP",
        "end_field",
        "end_message",
        "start_message",
        "start_field",
        "field_data korn",
        "field_data flaeks",
        "end_field",
        "end_message",
    ]
    .into_iter()
    .map(String::from)
    .collect();
    assert_eq!(expected, listener.events.into_inner());
}
