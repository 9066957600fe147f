use dns_server::common::dns_reader::DnsReader;
use dns_server::common::ParseError;

#[test]
fn read_copies_and_advances() {
    let bytes = vec![1u8, 2, 3, 4, 5];
    let mut reader = DnsReader::new(&bytes);
    assert_eq!(reader.cur_pos, 0);
    let mut two = [0u8; 2];
    assert_eq!(reader.read_exact(&mut two), Ok(()));
    assert_eq!(two, [1, 2]);
    assert_eq!(reader.cur_pos, 2);
    let mut three = [0u8; 3];
    assert_eq!(reader.read_exact(&mut three), Ok(()));
    assert_eq!(three, [3, 4, 5]);
    assert_eq!(reader.cur_pos, 5);
    let mut none: [u8; 0] = [];
    assert_eq!(reader.read_exact(&mut none), Ok(()));
    assert_eq!(reader.cur_pos, 5);
}

#[test]
fn peek_copies_without_advancing() {
    let bytes = vec![9u8, 8, 7];
    let mut reader = DnsReader::new(&bytes);
    let mut two = [0u8; 2];
    assert_eq!(reader.peek_exact(&mut two), Ok(()));
    assert_eq!(two, [9, 8]);
    assert_eq!(reader.cur_pos, 0);
    assert_eq!(reader.peek_exact(&mut two), Ok(()));
    assert_eq!(two, [9, 8]);
}

#[test]
fn overrun_is_reported_and_changes_nothing() {
    let bytes = vec![1u8, 2, 3];
    let mut reader = DnsReader { buf: &bytes, cur_pos: 2 };
    let mut two = [7u8; 2];
    assert_eq!(
        reader.read_exact(&mut two),
        Err(ParseError::BufOverflow { cur_pos: 2, n: 2, buf_length: 3 })
    );
    assert_eq!(two, [7, 7]);
    assert_eq!(reader.cur_pos, 2);
    assert_eq!(
        reader.peek_exact(&mut two),
        Err(ParseError::BufOverflow { cur_pos: 2, n: 2, buf_length: 3 })
    );
    assert_eq!(two, [7, 7]);
}

#[test]
fn cursor_far_outside_the_buffer_does_not_overflow() {
    let bytes = vec![1u8, 2, 3];
    let mut reader = DnsReader { buf: &bytes, cur_pos: usize::MAX };
    let mut one = [0u8; 1];
    assert_eq!(
        reader.read_exact(&mut one),
        Err(ParseError::BufOverflow { cur_pos: usize::MAX, n: 1, buf_length: 3 })
    );
    let mut reader = DnsReader { buf: &bytes, cur_pos: 3 };
    assert_eq!(
        reader.read_exact(&mut one),
        Err(ParseError::BufOverflow { cur_pos: 3, n: 1, buf_length: 3 })
    );
    let mut none: [u8; 0] = [];
    assert_eq!(reader.read_exact(&mut none), Ok(()));
}

#[test]
fn two_cursors_share_one_buffer() {
    let bytes = vec![10u8, 20, 30, 40];
    let mut first = DnsReader::new(&bytes);
    let mut second = DnsReader { buf: first.buf, cur_pos: 2 };
    let mut pair = [0u8; 2];
    assert_eq!(second.read_exact(&mut pair), Ok(()));
    assert_eq!(pair, [30, 40]);
    assert_eq!(first.read_exact(&mut pair), Ok(()));
    assert_eq!(pair, [10, 20]);
    assert_eq!(first.cur_pos, 2);
    assert_eq!(second.cur_pos, 4);
}
