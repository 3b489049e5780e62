use dragonhorde::paging::{paginate, Pagination};
use dragonhorde::similarity::{distance, rank_by_similarity, Candidate};

#[test]
fn hamming_distance() {
    assert_eq!(distance(0, 0), 0);
    assert_eq!(distance(0b1011, 0), 3);
    assert_eq!(distance(0, u64::MAX), 64);
    assert_eq!(distance(0xF0, 0x0F), 8);
}

#[test]
fn ranking_is_nearest_first_then_in_order() {
    let c = vec![
        Candidate { id: 9, hash: Some(0b11) },
        Candidate { id: 8, hash: None },
        Candidate { id: 7, hash: Some(0b01) },
        Candidate { id: 6, hash: Some(0b10) },
        Candidate { id: 5, hash: Some(0) },
    ];
    let all = Pagination { per_page: None, last: None };
    assert_eq!(rank_by_similarity(&c, 0, Some(2), &all), vec![(5, 0), (7, 1), (6, 1), (9, 2)]);
    assert_eq!(rank_by_similarity(&c, 0, Some(0), &all), vec![(5, 0)]);
    let p = Pagination { per_page: Some(2), last: Some(1) };
    assert_eq!(rank_by_similarity(&c, 0, Some(2), &p), vec![(7, 1), (6, 1)]);
    assert_eq!(rank_by_similarity(&c, u64::MAX, Some(1000), &all).len(), 4);
}

#[test]
fn page_windows() {
    let v: Vec<u32> = (0..10).collect();
    assert_eq!(paginate(&v, &Pagination { per_page: Some(3), last: Some(0) }), vec![0, 1, 2]);
    assert_eq!(paginate(&v, &Pagination { per_page: Some(3), last: Some(9) }), vec![9]);
    assert_eq!(paginate(&v, &Pagination { per_page: Some(3), last: Some(10) }), Vec::<u32>::new());
    assert_eq!(paginate(&v, &Pagination { per_page: Some(u64::MAX), last: Some(u64::MAX) }), Vec::<u32>::new());
    assert_eq!(paginate(&v, &Pagination { per_page: None, last: None }).len(), 10);
    assert_eq!(Pagination { per_page: None, last: None }.per_page(), 50);
}
