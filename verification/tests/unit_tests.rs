use json_carver::{byte_can_escape, byte_needs_escape, _closing_ident, JsonTracker};

#[test]
fn test_byte_needs_escape() {
    assert!(byte_needs_escape(0x00));
    assert!(byte_needs_escape(0x0A));
    assert!(byte_needs_escape(0x1F));
    assert!(!byte_needs_escape(0x20));
    assert!(!byte_needs_escape(b'a'));
}

#[test]
fn test_byte_can_escape() {
    for b in [b'"', b'\\', b'/', b'b', b'f', b'n', b'r', b't', b'u'] {
        assert!(byte_can_escape(b));
    }
    assert!(!byte_can_escape(b'a'));
    assert!(!byte_can_escape(b'0'));
    assert!(!byte_can_escape(b'q'));
}

#[test]
fn test_closing_ident() {
    assert_eq!(_closing_ident(b'['), b']');
    assert_eq!(_closing_ident(b'{'), b'}');
}

#[test]
fn test_tracker_push_pop() {
    let mut jt = JsonTracker::new(Some(16), Some(8));
    assert_eq!(jt.last_byte(), None);
    assert_eq!(jt.last_ident(), None);

    jt.add_ident(b'[');
    assert_eq!(jt.last_byte(), Some(b'['));
    assert_eq!(jt.last_ident(), Some(b'['));
    assert_eq!(jt.partial_close_end(), 0);

    jt.add_ident(b'{');
    assert_eq!(jt.last_ident(), Some(b'{'));
    assert_eq!(jt.partial_close_end(), 1);
    assert_eq!(jt.buf_len(), 2);

    // Popping with the wrong opener fails and changes nothing.
    assert_eq!(jt.remove_ident(b'['), Err(()));
    assert_eq!(jt.buf_len(), 2);

    // Popping the matching opener appends the closer; the stack is not yet
    // empty, so the candidate is not complete.
    assert_eq!(jt.remove_ident(b'{'), Ok(false));
    assert_eq!(jt.last_byte(), Some(b'}'));
    assert_eq!(jt.partial_close_end(), 2);

    assert_eq!(jt.remove_ident(b'['), Ok(true));
    assert_eq!(jt.buf_vec(), b"[{}]".to_vec());
    assert_eq!(jt.partial_close_end(), 3);

    jt.quick_clean();
    assert_eq!(jt.buf_len(), 0);
    assert_eq!(jt.last_byte(), None);
    assert_eq!(jt.last_ident(), None);
    assert_eq!(jt.partial_close_end(), 0);
}

#[test]
fn test_tracker_advance_replaces_newlines() {
    let mut jt = JsonTracker::new(Some(4), Some(4));
    jt.set_replace_newlines(true);
    jt.advance(b'a');
    jt.advance(b'\n');
    jt.advance(b'b');
    assert_eq!(jt.buf_vec(), b"a b".to_vec());

    let mut jt = JsonTracker::new(Some(4), Some(4));
    jt.advance(b'\n');
    assert_eq!(jt.buf_vec(), b"\n".to_vec());
}

#[test]
fn test_tracker_buffer_grows_past_initial_size() {
    // The initial buffer holds two bytes; appending more must grow it.
    let mut jt = JsonTracker::new(Some(2), Some(4));
    for b in b"abcdef" {
        jt.advance(*b);
    }
    assert_eq!(jt.buf_len(), 6);
    assert_eq!(jt.buf_vec(), b"abcdef".to_vec());
}
