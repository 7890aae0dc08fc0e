use plaintalk::pushgenerator::PushGenerator;

#[test]
fn pushgenerator_it_works() {
    let mut generator = PushGenerator::new(Vec::new());

    {
        let mut message = generator.next_message().unwrap();

        {
            let mut field = message.next_field().unwrap();
            field.write(b"0").unwrap();
            field.close();
        }

        {
            let mut field = message.next_field().unwrap();
            field.write(b"lol").unwrap();
            field.close();
        }

        message.finish();
    }

    assert_eq!(b"0 lol\n".to_vec(), generator.into_inner());
}

#[test]
fn it_escapes_control_characters() {
    let mut generator = PushGenerator::new(Vec::new());

    {
        let mut message = generator.next_message().unwrap();

        {
            let mut field = message.next_field().unwrap();
            field.write(b" ").unwrap();
            field.write(b"\r").unwrap();
            field.write(b"\n").unwrap();
            field.write(b"{").unwrap();
            field.close();
        }

        message.finish();
    }

    assert_eq!(b"{1} {1}\r{1}\n{1}{\n".to_vec(), generator.into_inner());
}

#[test]
fn it_has_convenience_functions() {
    let mut generator = PushGenerator::new(Vec::new());

    {
        let mut message = generator.next_message().unwrap();
        message.write_field(b"apekatt").unwrap();
        message.write_field(b"katter ape").unwrap();
        message.finish();
    }

    generator.write_message(&[b"0", b"error", b"success"]).unwrap();
    generator.write_message(&[b"1"]).unwrap();

    assert_eq!(b"apekatt {10}katter ape\n0 error success\n1\n".to_vec(), generator.into_inner());
}

#[test]
fn it_generates_escape_sequence_for_empty_fields() {
    let mut generator = PushGenerator::new(Vec::new());

    generator.write_message(&[b"", b""]).unwrap();

    assert_eq!(b"{0} {0}\n".to_vec(), generator.into_inner());
}
