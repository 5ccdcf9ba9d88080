use std::rc::Rc;

use photo_culler::viewer::{preload_plan, DecodedImage, ImageCache, CACHE_SIZE};

fn image(w: usize, h: usize) -> DecodedImage {
    DecodedImage { pixels: vec![7u8; w * h * 4], width: w, height: h }
}

fn id(n: usize) -> String {
    format!("/photos/IMG_{:04}.jpg", n)
}

/// Requests, receives and shows `n`, with the handle `Rc::new(n)`.
fn show(cache: &mut ImageCache<Rc<usize>>, n: usize) -> Rc<usize> {
    assert!(cache.request_load(&id(n)));
    cache.poll(vec![(id(n), image(2, 2))]);
    let h = cache.get_texture(&id(n), |_d| Rc::new(n)).expect("ready after poll");
    assert_eq!(**h, n);
    h.clone()
}

#[test]
fn plan_seven_identifiers_from_the_middle() {
    assert_eq!(preload_plan(7, 3), vec![3, 4, 2, 5, 1]);
}

#[test]
fn plan_at_the_edges() {
    assert_eq!(preload_plan(0, 0), Vec::<usize>::new());
    assert_eq!(preload_plan(1, 0), vec![0]);
    assert_eq!(preload_plan(3, 0), vec![0, 1, 2]);
    assert_eq!(preload_plan(5, 4), vec![4, 3, 2]);
    assert_eq!(preload_plan(7, 1), vec![1, 2, 0, 3]);
    assert_eq!(preload_plan(3, 9), Vec::<usize>::new());
}

#[test]
fn sixth_insert_evicts_the_first() {
    let mut cache: ImageCache<Rc<usize>> = ImageCache::new();
    let mut kept = Vec::new();
    for n in 1..=6 {
        kept.push(show(&mut cache, n));
    }
    // the cache's own reference to image 1 is gone, the others remain
    assert_eq!(Rc::strong_count(&kept[0]), 1);
    for h in &kept[1..] {
        assert_eq!(Rc::strong_count(h), 2);
    }
    assert!(cache.get_texture(&id(1), |_d| Rc::new(100)).is_none());
    for n in 2..=6 {
        assert_eq!(**cache.get_texture(&id(n), |_d| Rc::new(100)).unwrap(), n);
    }
    assert_eq!(CACHE_SIZE, 5);
}

#[test]
fn touching_spares_an_entry_from_eviction() {
    let mut cache: ImageCache<Rc<usize>> = ImageCache::new();
    let mut kept = Vec::new();
    for n in 1..=5 {
        kept.push(show(&mut cache, n));
    }
    assert!(cache.get_texture(&id(1), |_d| Rc::new(100)).is_some());
    kept.push(show(&mut cache, 6));
    assert_eq!(Rc::strong_count(&kept[0]), 2);
    assert_eq!(Rc::strong_count(&kept[1]), 1);
    assert!(cache.get_texture(&id(2), |_d| Rc::new(100)).is_none());
    assert_eq!(**cache.get_texture(&id(1), |_d| Rc::new(100)).unwrap(), 1);
}

#[test]
fn second_request_before_the_result_sends_nothing() {
    let mut cache: ImageCache<u32> = ImageCache::new();
    assert!(cache.request_load(&id(1)));
    assert!(!cache.request_load(&id(1)));
    let paths: Vec<String> = (0..7).map(id).collect();
    assert_eq!(cache.preload_adjacent(&paths, 3), vec![id(3), id(4), id(2), id(5)]);
    assert_eq!(cache.preload_adjacent(&paths, 3), Vec::<String>::new());
}

#[test]
fn resident_and_decoded_identifiers_are_not_requested() {
    let mut cache: ImageCache<u32> = ImageCache::new();
    assert!(cache.request_load(&id(1)));
    cache.poll(vec![(id(1), image(1, 1))]);
    assert!(!cache.request_load(&id(1)));
    assert_eq!(*cache.get_texture(&id(1), |d| d.width as u32 + 40).unwrap(), 41);
    assert!(!cache.request_load(&id(1)));
}

#[test]
fn clear_releases_and_allows_a_new_request() {
    let mut cache: ImageCache<Rc<usize>> = ImageCache::new();
    let h = show(&mut cache, 1);
    assert!(!cache.request_load(&id(1)));
    cache.clear();
    assert_eq!(Rc::strong_count(&h), 1);
    assert!(cache.get_texture(&id(1), |_d| Rc::new(100)).is_none());
    assert!(cache.request_load(&id(1)));
}

#[test]
fn clear_keeps_requests_in_flight() {
    let mut cache: ImageCache<u32> = ImageCache::new();
    assert!(cache.request_load(&id(1)));
    cache.clear();
    assert!(!cache.request_load(&id(1)));
    cache.poll(vec![(id(1), image(1, 1))]);
    assert_eq!(*cache.get_texture(&id(1), |_d| 9).unwrap(), 9);
}

#[test]
fn failed_decode_never_becomes_ready() {
    let mut cache: ImageCache<u32> = ImageCache::new();
    assert!(cache.request_load(&id(1)));
    // the worker drops the request: no result ever arrives
    for _ in 0..3 {
        cache.poll(Vec::new());
        assert!(cache.get_texture(&id(1), |_d| 1).is_none());
    }
    assert!(!cache.request_load(&id(1)));
}

#[test]
fn results_arriving_out_of_order_are_keyed_by_identifier() {
    let mut cache: ImageCache<usize> = ImageCache::new();
    assert!(cache.request_load(&id(1)));
    assert!(cache.request_load(&id(2)));
    cache.poll(vec![(id(2), image(2, 1)), (id(1), image(1, 1))]);
    assert_eq!(*cache.get_texture(&id(1), |d| d.width).unwrap(), 1);
    assert_eq!(*cache.get_texture(&id(2), |d| d.width).unwrap(), 2);
}

#[test]
fn a_later_result_replaces_a_decoded_buffer() {
    let mut cache: ImageCache<usize> = ImageCache::new();
    cache.poll(vec![(id(1), image(1, 1)), (id(1), image(3, 1))]);
    assert_eq!(*cache.get_texture(&id(1), |d| d.width).unwrap(), 3);
    assert!(cache.get_texture(&id(1), |_d| 0).is_some());
}
