use ordered_treap::random::{Random, A, C, M, START};

#[test]
fn constants_of_the_generator() {
    assert_eq!(A, 1366);
    assert_eq!(C, 150889);
    assert_eq!(M, 714025);
    assert_eq!(START, 0x114514);
}

#[test]
fn first_numbers_of_the_generator() {
    let mut random = Random::new();
    assert_eq!(random.next(), 320100);
    assert_eq!(random.next(), 424189);
    assert_eq!(random.next(), 518788);
    assert_eq!(random.next(), 502497);
    assert_eq!(random.next(), 383766);
    assert_eq!(random.next(), 280895);
}

#[test]
fn each_number_follows_from_the_one_before() {
    let mut random = Random::new();
    let mut state: i64 = START % M;
    for _ in 0..1000 {
        state = (A * state + C) % M;
        let drawn = random.next();
        assert_eq!(drawn as i64, state);
        assert!(0 <= drawn && (drawn as i64) < M);
    }
}

#[test]
fn two_generators_agree() {
    let mut a = Random::new();
    let mut b = Random::new();
    for _ in 0..50 {
        assert_eq!(a.next(), b.next());
    }
}
