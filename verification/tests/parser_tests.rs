use mirdb::parser::{
    parse, to_getter_type, to_setter_type, u32_parser, unwrap_no_reply, usize_parser, IRResult, Step,
};
use mirdb::request::{GetterType, Request, SetterType};

#[test]
fn test() {
    assert_eq!(parse(b"get abc\r\nget"), IRResult::Done(("get".as_bytes(), Request::Getter {
        getter: GetterType::Get,
        keys: vec![b"abc".to_vec()],
    })));
    assert_eq!(parse(b"get abc\r\n"), IRResult::Done(("".as_bytes(), Request::Getter {
        getter: GetterType::Get,
        keys: vec![b"abc".to_vec()],
    })));
    assert_eq!(parse(b"gets abc\r\n"), IRResult::Done(("".as_bytes(), Request::Getter {
        getter: GetterType::Gets,
        keys: vec![b"abc".to_vec()],
    })));
    assert_eq!(parse(b"get  abc\r\n"), IRResult::Done(("".as_bytes(), Request::Getter {
        getter: GetterType::Get,
        keys: vec![b"abc".to_vec()],
    })));
    assert_eq!(parse(b"get abc def\r\n"), IRResult::Done(("".as_bytes(), Request::Getter {
        getter: GetterType::Get,
        keys: vec![b"abc".to_vec(), b"def".to_vec()],
    })));
    assert_eq!(parse(b"get    abc  def   ghi\r\n"), IRResult::Done(("".as_bytes(), Request::Getter {
        getter: GetterType::Get,
        keys: vec![b"abc".to_vec(), b"def".to_vec(), b"ghi".to_vec()],
    })));
    assert_eq!(parse(b"gets    abc  def   ghi\r\n"), IRResult::Done(("".as_bytes(), Request::Getter {
        getter: GetterType::Gets,
        keys: vec![b"abc".to_vec(), b"def".to_vec(), b"ghi".to_vec()],
    })));
    assert_eq!(parse(b"set abc 1 0 7\r\n"), IRResult::Incomplete(7));
    assert_eq!(parse(b"set abc   1 0 7\r\n"), IRResult::Incomplete(7));
    assert_eq!(parse(b"set abc   1 0 7\r\na"), IRResult::Incomplete(6));
    assert_eq!(parse(b"set abc 1 0 7\r\n\"a b c\"\r\n"), IRResult::Done(("".as_bytes(), Request::Setter {
        setter: SetterType::Store,
        key: b"abc".to_vec(),
        flags: 1,
        ttl: 0,
        bytes: 7,
        payload: b"\"a b c\"".to_vec(),
        no_reply: false,
    })));
    assert_eq!(parse(b"set    abc    1 0 7\r\n\"a b c\"\r\n"), IRResult::Done(("".as_bytes(), Request::Setter {
        setter: SetterType::Store,
        key: b"abc".to_vec(),
        flags: 1,
        ttl: 0,
        bytes: 7,
        payload: b"\"a b c\"".to_vec(),
        no_reply: false,
    })));
    assert_eq!(parse(b"set abc 1 0 7 noreply\r\n\"a b c\"\r\n"), IRResult::Done(("".as_bytes(), Request::Setter {
        setter: SetterType::Store,
        key: b"abc".to_vec(),
        flags: 1,
        ttl: 0,
        bytes: 7,
        payload: b"\"a b c\"".to_vec(),
        no_reply: true,
    })));
    assert_eq!(parse(b"set abc 1 0 6\r\nabcd\r\n\r\n"), IRResult::Done(("".as_bytes(), Request::Setter {
        setter: SetterType::Store,
        key: b"abc".to_vec(),
        flags: 1,
        ttl: 0,
        bytes: 6,
        payload: b"abcd\r\n".to_vec(),
        no_reply: false,
    })));
    assert_eq!(parse(b"add abc 1 0 6\r\nabcd\r\n\r\n"), IRResult::Done(("".as_bytes(), Request::Setter {
        setter: SetterType::Add,
        key: b"abc".to_vec(),
        flags: 1,
        ttl: 0,
        bytes: 6,
        payload: b"abcd\r\n".to_vec(),
        no_reply: false,
    })));
    assert_eq!(parse(b"delete abc\r\n"), IRResult::Done(("".as_bytes(), Request::Deleter {
        key: b"abc".to_vec(),
        no_reply: false,
    })));
    assert_eq!(parse(b"delete abc noreply\r\n"), IRResult::Done(("".as_bytes(), Request::Deleter {
        key: b"abc".to_vec(),
        no_reply: true,
    })));
}

#[test]
fn parser_tells_other_commands_and_bad_input() {
    for (name, kind) in [
        ("replace", SetterType::Replace),
        ("append", SetterType::Append),
        ("prepend", SetterType::Prepend),
    ] {
        let line = format!("{} k 4294967295 7 2\r\nxy\r\n", name);
        assert_eq!(parse(line.as_bytes()), IRResult::Done(("".as_bytes(), Request::Setter {
            setter: kind,
            key: b"k".to_vec(),
            flags: 4294967295,
            ttl: 7,
            bytes: 2,
            payload: b"xy".to_vec(),
            no_reply: false,
        })));
    }
    assert_eq!(parse(b"set k 4294967296 0 1\r\nx\r\n"), IRResult::Error);
    assert_eq!(parse(b"set k x 0 1\r\nx\r\n"), IRResult::Error);
    assert_eq!(parse(b"fetch k\r\n"), IRResult::Error);
    assert_eq!(parse(b"get\r\n"), IRResult::Error);
    assert_eq!(parse(b""), IRResult::Incomplete(4));
    assert_eq!(parse(b"ge"), IRResult::Incomplete(2));
    assert_eq!(parse(b"del"), IRResult::Incomplete(3));
    assert_eq!(parse(b"get abc"), IRResult::Incomplete(1));
    assert_eq!(parse(b"get abc\r"), IRResult::Incomplete(1));
    assert_eq!(parse(b"set k 1 2 3\r\nabc"), IRResult::Incomplete(2));
    assert_eq!(parse(b"set k 1 2 3\r\nabc\r"), IRResult::Incomplete(1));
    // a payload longer than announced runs up to the next line end
    assert_eq!(parse(b"set k 1 2 3\r\nabcdef\r\nrest"), IRResult::Done(("rest".as_bytes(), Request::Setter {
        setter: SetterType::Store,
        key: b"k".to_vec(),
        flags: 1,
        ttl: 2,
        bytes: 3,
        payload: b"abcdef".to_vec(),
        no_reply: false,
    })));
}

#[test]
fn parser_helpers() {
    assert_eq!(to_getter_type(b"get"), Some(GetterType::Get));
    assert_eq!(to_getter_type(b"gets"), Some(GetterType::Gets));
    assert_eq!(to_getter_type(b"got"), None);
    assert_eq!(to_setter_type(b"set"), Some(SetterType::Store));
    assert_eq!(to_setter_type(b"prepend"), Some(SetterType::Prepend));
    assert_eq!(to_setter_type(b"pre"), None);
    assert_eq!(u32_parser(b"123 "), (Step::Done(3), 123));
    assert_eq!(u32_parser(b"99999999999 ").0, Step::Error);
    assert_eq!(usize_parser(b"0007;"), (Step::Done(4), 7));
    assert_eq!(usize_parser(b"12").0, Step::Incomplete(1));
    assert!(unwrap_no_reply(Some(b"noreply")));
    assert!(!unwrap_no_reply(None));
}
