use imget::thumbnails::{
    decimal_string, generate_thumbnail, hash_u8_array, hex_string, resize_method, thumbnail_key,
    thumbnail_path, CacheDecision, ResizeMethod, ThumbnailCache, ThumbnailRequestParam,
};

#[test]
fn sha256_hex_of_known_inputs() {
    assert_eq!(hash_u8_array(b"abc"), "ba7816bf8f01cfea414140de5dae2223b00361a396177a9cb410ff61f20015ad");
    assert_eq!(hash_u8_array(b""), "e3b0c44298fc1c149afbf4c8996fb92427ae41e4649b934ca495991b7852b855");
    assert_eq!(hash_u8_array(&[7u8; 1000]).len(), 64);
}

#[test]
fn hex_and_decimal_forms() {
    assert_eq!(hex_string(&[0x00, 0x0f, 0xa5, 0xff]), "000fa5ff");
    assert_eq!(hex_string(&[]), "");
    assert_eq!(decimal_string(0), "0");
    assert_eq!(decimal_string(512), "512");
    assert_eq!(decimal_string(u32::MAX), "4294967295");
}

#[test]
fn artifact_path_layout() {
    assert_eq!(thumbnail_path("abc", 512, 256, false), "./thumbs/abc-w512h256-hq-false.jpeg");
    assert_eq!(thumbnail_path("d0", 1, 2, true), "./thumbs/d0-w1h2-hq-true.jpeg");
}

#[test]
fn same_pixels_same_key() {
    let a = vec![1u8, 2, 3, 4];
    let b = a.clone();
    assert_eq!(thumbnail_key(&a, 512, 512, false), thumbnail_key(&b, 512, 512, false));
    assert_ne!(thumbnail_key(&a, 512, 512, false), thumbnail_key(&a, 512, 512, true));
    assert_ne!(thumbnail_key(&a, 512, 512, false), thumbnail_key(&[1, 2, 3], 512, 512, false));
    let expected = format!("./thumbs/{}-w64h32-hq-false.jpeg", hash_u8_array(&a));
    assert_eq!(thumbnail_key(&a, 64, 32, false), expected);
}

#[test]
fn second_request_is_a_pure_hit() {
    let mut cache = ThumbnailCache::new();
    let key = thumbnail_key(&[9, 9, 9], 512, 512, false);
    assert_eq!(cache.request(&key, false), CacheDecision::Generate);
    assert_eq!(cache.generations(), 1);
    cache.finish(&key, true);
    assert_eq!(cache.request(&key, false), CacheDecision::Hit);
    assert_eq!(cache.generations(), 1);
}

#[test]
fn concurrent_requests_wait_for_the_generation() {
    let mut cache = ThumbnailCache::new();
    let key = "k".to_string();
    assert_eq!(cache.request(&key, false), CacheDecision::Generate);
    assert_eq!(cache.request(&key, false), CacheDecision::Wait);
    assert_eq!(cache.request(&"other".to_string(), false), CacheDecision::Generate);
    assert_eq!(cache.generations(), 2);
    cache.finish(&key, false);
    assert_eq!(cache.request(&key, false), CacheDecision::Generate);
    assert_eq!(cache.request(&"x".to_string(), true), CacheDecision::Hit);
    assert_eq!(cache.generations(), 3);
}

#[test]
fn request_defaults() {
    let p = ThumbnailRequestParam { path: "a.png".to_string(), hq: None, max_w: None, max_h: Some(100) };
    assert_eq!(p.width(), 512);
    assert_eq!(p.height(), 100);
    assert!(!p.high_quality());
    assert_eq!(resize_method(Some(true)), ResizeMethod::HighQuality);
    assert_eq!(resize_method(Some(false)), ResizeMethod::Fast);
    assert_eq!(resize_method(None), ResizeMethod::Fast);
}

#[test]
fn thumbnails_fit_the_bounds() {
    let img = image::DynamicImage::new_rgb8(200, 100);
    let fast = generate_thumbnail(&img, 50, 50, None);
    assert_eq!((fast.width(), fast.height()), (50, 25));
    let hq = generate_thumbnail(&img, 40, 100, Some(true));
    assert_eq!((hq.width(), hq.height()), (80, 40));
}
