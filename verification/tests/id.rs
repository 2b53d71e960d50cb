use fantoch::id::{Id, IdGen};

#[test]
fn next_id() {
    type MyGen = IdGen<u64>;

    // create id generator
    let source = 10;
    let mut gen = MyGen::new(source);

    // generate `n` ids and check the `id` generated
    let n = 100;

    for seq in 1..=n {
        // generate id
        let id = gen.next_id();

        // check `id`
        assert_eq!(id.source, source);
        assert_eq!(id.seq, seq);
    }
}

#[test]
fn id_new_keeps_source_and_seq() {
    let id = Id::new(7u8, 42);
    assert_eq!(id.source(), 7);
    assert_eq!(id.seq, 42);
}

#[test]
fn generator_keeps_its_source() {
    let mut gen = IdGen::new(3u32);
    assert_eq!(gen.source(), 3);
    let first = gen.next_id();
    let second = gen.next_id();
    assert_eq!(gen.source(), 3);
    assert_eq!(first, Id::new(3, 1));
    assert_eq!(second, Id::new(3, 2));
    assert_ne!(first, second);
}
