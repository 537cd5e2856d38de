use libubox::{BlobBuf, Uloop, UloopError};

#[test]
fn uloop_round_trip_and_guard() {
    // The process-wide flag, as the caller keeps it; setting the loop up
    // succeeds here.
    let mut initialized = false;

    let u = Uloop::new(&mut initialized, || 0).expect("first uloop");

    match Uloop::new(&mut initialized, || 0) {
        Err(UloopError::AlreadyInitialized) => {}
        Err(other) => panic!("second concurrent Uloop returned wrong error: {other:?}"),
        Ok(_) => panic!("second concurrent Uloop succeeded; guard is broken"),
    }

    u.release(&mut initialized);
    let _u2 = Uloop::new(&mut initialized, || 0).expect("uloop after drop");
}

#[test]
fn blob_buf_drops() {
    let _b = BlobBuf::new().expect("blob_buf_init");
}

#[test]
fn uloop_init_failure_clears_flag() {
    let mut initialized = false;
    let r = Uloop::new(&mut initialized, || -5);
    match &r {
        Err(UloopError::InitFailed(rc)) => assert_eq!(*rc, -5),
        _ => panic!("expected InitFailed"),
    }
    assert!(!initialized);
    // The failed attempt does not block the next one.
    assert!(Uloop::new(&mut initialized, || 0).is_ok());
    assert!(initialized);
}

#[test]
fn uloop_refused_without_calling_init() {
    let mut initialized = true;
    let mut called = false;
    let r = Uloop::new(&mut initialized, || {
        called = true;
        0
    });
    assert!(matches!(r, Err(UloopError::AlreadyInitialized)));
    assert!(initialized);
    assert!(!called);
}
