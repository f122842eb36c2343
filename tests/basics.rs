use tinyrlibc::{abs, errno, isalpha, isdigit, isspace, isupper, set_errno, CStringIter};

#[test]
fn neg() {
    assert_eq!(abs(-2), 2);
}

#[test]
fn pos() {
    assert_eq!(abs(3), 3);
}

#[test]
fn abs_zero() {
    assert_eq!(abs(0), 0);
}

#[test]
fn abs_extremes() {
    assert_eq!(abs(i32::MAX), i32::MAX);
    assert_eq!(abs(-i32::MAX), i32::MAX);
}

#[test]
fn all_digits() {
    for i in ['0', '1', '2', '3', '4', '5', '6', '7', '8', '9'] {
        let result = isdigit(i as i32);
        assert_eq!(result, 1);
    }
}

#[test]
fn non_digits() {
    for i in ['a', 'b', 'c', 'd', 'e', 'f', 'g', 'h', 'i', 'j'] {
        let result = isdigit(i as i32);
        assert_eq!(result, 0);
    }
}

#[test]
fn space() {
    assert_eq!(isspace(' ' as i32), 1);
}

#[test]
fn tab() {
    assert_eq!(isspace('\t' as i32), 1);
}

#[test]
fn newline() {
    assert_eq!(isspace('\n' as i32), 1);
}

#[test]
fn carriage_return() {
    assert_eq!(isspace('\r' as i32), 1);
}

#[test]
fn form_feed() {
    assert_eq!(isspace('\x0c' as i32), 1);
}

#[test]
fn vertical_tab() {
    assert_eq!(isspace('\x0b' as i32), 1);
}

#[test]
fn isspace_zero() {
    assert_eq!(isspace('0' as i32), 0);
}

#[test]
fn a() {
    assert_eq!(isspace('a' as i32), 0);
}

#[test]
fn low_byte_decides() {
    assert_eq!(isspace(0x100 + ' ' as i32), 1);
    assert_eq!(isdigit(0x200 + '7' as i32), 1);
}

#[test]
fn letters() {
    assert_eq!(isalpha('q' as i32), 1);
    assert_eq!(isalpha('Q' as i32), 1);
    assert_eq!(isalpha('5' as i32), 0);
    assert_eq!(isupper('Q' as i32), 1);
    assert_eq!(isupper('q' as i32), 0);
    assert_eq!(isupper('@' as i32), 0);
}

#[test]
fn errno_holds_its_code() {
    let e = errno(22);
    assert_eq!(e.errno, 22);
    set_errno(e);
}

#[test]
fn cstring_iter_stops_at_nul() {
    let bytes = b"hi!\0rest";
    let mut it = CStringIter::new(bytes);
    assert_eq!(it.next(), Some(b'h'));
    assert_eq!(it.next(), Some(b'i'));
    assert_eq!(it.next(), Some(b'!'));
    assert_eq!(it.next(), None);
    assert_eq!(it.next(), None);
}

#[test]
fn cstring_iter_stops_at_end() {
    let mut it = CStringIter::new(b"ab");
    assert_eq!(it.next(), Some(b'a'));
    assert_eq!(it.next(), Some(b'b'));
    assert_eq!(it.next(), None);
    let mut empty = CStringIter::new(b"");
    assert_eq!(empty.next(), None);
}
