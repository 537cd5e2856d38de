use libubox::{BlobBuf, BlobmsgBuf, Uloop};

#[test]
fn uloop_init_and_done() {
    // Setting the loop up succeeds (code 0) when no guard exists yet.
    let mut initialized = false;
    let guard = Uloop::new(&mut initialized, || 0);
    assert!(guard.is_ok());
    guard.unwrap().release(&mut initialized);
    assert!(!initialized);
}

#[test]
fn blob_buf_lifecycle() {
    let buf = BlobBuf::new();
    assert!(buf.is_ok());
    drop(buf);
}

#[test]
fn blobmsg_json_symbol_present() {
    let b = BlobmsgBuf::new().expect("init");
    let _json = b.format_json(|bits: u64| format!("{:.6}", f64::from_bits(bits)).into_bytes());
}
