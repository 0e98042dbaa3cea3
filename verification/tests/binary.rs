use mynd::binary::{
    convert_todos_to_binary, get_todos_from_binary, into_int_bytes, into_time_bytes, BinaryError,
};
use mynd::identity::TodoID;
use mynd::record::{Todo, TodoTime};

#[test]
fn test_serde_binary() {
    let t = Todo::new("tesat".to_string());
    let mut data = t.to_binary();
    data.reverse();
    assert_eq!(t, Todo::from_binary(&mut data).unwrap());
    assert!(data.is_empty())
}

#[test]
fn test_serde_binary_many() {
    let todos = [
        Todo::new("one".to_string()),
        Todo::new("two".to_string()),
        Todo::new("three".to_string()),
        Todo::new("adsfasd;lfkjasdf".to_string()),
    ];

    let mut data = convert_todos_to_binary(&todos);
    assert_eq!(todos.to_vec(), get_todos_from_binary(&mut data).unwrap());

    assert!(data.is_empty())
}

#[test]
fn record_is_written_byte_for_byte() {
    let todo = Todo {
        id: TodoID::hash_message("hi\u{e9}"),
        message: "hi\u{e9}".to_string(),
        created_at: TodoTime(0x0102_0304_0506_0708),
        done: true,
    };
    assert_eq!(
        todo.to_binary(),
        vec![1, 0, 0, 0, 4, b'h', b'i', 0xc3, 0xa9, 1, 2, 3, 4, 5, 6, 7, 8, 1]
    );
    let todo = Todo {
        created_at: TodoTime(-2),
        done: false,
        ..todo
    };
    assert_eq!(
        todo.to_binary(),
        vec![
            1, 0, 0, 0, 4, b'h', b'i', 0xc3, 0xa9, 0xff, 0xff, 0xff, 0xff, 0xff, 0xff, 0xff, 0xfe,
            0
        ]
    );
}

#[test]
fn numbers_are_written_highest_byte_first() {
    assert_eq!(into_int_bytes(0), 0u32.to_be_bytes());
    assert_eq!(into_int_bytes(1), [0, 0, 0, 1]);
    assert_eq!(into_int_bytes(0x1234_5678), [0x12, 0x34, 0x56, 0x78]);
    assert_eq!(into_int_bytes(0xffff_ffff), [0xff; 4]);
    assert_eq!(into_int_bytes(0x1_0000_0002), [0, 0, 0, 2]);
    for nanos in [0, 1, -1, 255, 256, i64::MAX, i64::MIN, 1_662_921_288_000_000_000] {
        assert_eq!(into_time_bytes(nanos), nanos.to_be_bytes());
    }
}

#[test]
fn times_before_1970_are_read_back() {
    for nanos in [i64::MIN, -1, 0, 1, i64::MAX, -2_208_936_075_000_000_000] {
        let todo = Todo::created_at("then".to_string(), TodoTime(nanos));
        let mut data = todo.to_binary();
        assert_eq!(get_todos_from_binary(&mut data), Ok(vec![todo]));
    }
}

#[test]
fn identity_is_made_from_the_message_that_is_read() {
    let odd = Todo {
        id: TodoID("not a digest".to_string()),
        message: "a".to_string(),
        created_at: TodoTime(5),
        done: true,
    };
    let mut data = odd.to_binary();
    data[0] = 77;
    data[17 - 3] = 9;
    let read = get_todos_from_binary(&mut data).unwrap();
    assert_eq!(
        read,
        vec![Todo {
            id: TodoID::hash_message("a"),
            message: "a".to_string(),
            created_at: TodoTime(5),
            done: true,
        }]
    );
}

#[test]
fn no_bytes_are_no_records() {
    let mut data = vec![];
    assert_eq!(get_todos_from_binary(&mut data), Ok(vec![]));
    assert_eq!(convert_todos_to_binary(&[]), Vec::<u8>::new());
}

#[test]
fn truncated_bytes_are_empty_data() {
    let whole = Todo::created_at("abc".to_string(), TodoTime(1)).to_binary();
    for cut in 1..whole.len() {
        let mut data = whole[..cut].to_vec();
        assert_eq!(get_todos_from_binary(&mut data), Err(BinaryError::EmptyData));
        let mut stack: Vec<u8> = whole[..cut].iter().rev().copied().collect();
        assert_eq!(Todo::from_binary(&mut stack), Err(BinaryError::EmptyData));
        assert!(stack.is_empty());
    }
    let mut stack = vec![];
    assert_eq!(Todo::from_binary(&mut stack), Err(BinaryError::EmptyData));
    assert_eq!(BinaryError::EmptyData.message(), "empty data");
}

#[test]
fn message_that_is_no_utf8_is_refused() {
    let mut data = vec![1, 0, 0, 0, 2, 0xff, 0xfe, 0, 0, 0, 0, 0, 0, 0, 0, 0, 42];
    assert_eq!(get_todos_from_binary(&mut data), Err(BinaryError::NotUtf8));
    let mut stack = vec![42, 0, 0, 0, 0, 0, 0, 0, 0, 0, 0xfe, 0xff, 2, 0, 0, 0, 1];
    assert_eq!(Todo::from_binary(&mut stack), Err(BinaryError::NotUtf8));
    assert_eq!(stack, vec![42, 0, 0, 0, 0, 0, 0, 0, 0, 0]);
    assert_eq!(BinaryError::NotUtf8.message(), "message was not in utf-8");
}

#[test]
fn what_follows_a_record_is_left_on_the_stack() {
    let first = Todo::created_at("a".to_string(), TodoTime(1));
    let second = Todo::created_at("b".to_string(), TodoTime(2));
    let mut stack = convert_todos_to_binary(&[first.clone(), second.clone()]);
    stack.reverse();
    assert_eq!(Todo::from_binary(&mut stack), Ok(first));
    let mut rest = second.to_binary();
    rest.reverse();
    assert_eq!(stack, rest);
}
