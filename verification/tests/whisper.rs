use loadbalancer::whisper::whisper;

#[test]
fn whisper_increments_once() {
    assert_eq!(whisper(0), 1);
    assert_eq!(whisper(41), 42);
}

#[test]
fn whisper_chain_counts_its_stages() {
    let mut v: usize = 0;
    for _ in 0..25 {
        v = whisper(v);
    }
    assert_eq!(v, 25);
}
