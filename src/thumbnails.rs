//! Thumbnails: a content-addressed cache of resized images. An artifact's
//! name is derived from the SHA-256 digest of the decoded pixels and the
//! requested bounds, and one generation at most runs per name at a time.
use vstd::prelude::*;

use sha2::Digest;

use crate::archives::lemma_filter_map_step;
use crate::paths::{contains_string, lemma_strings_view_push, strings_view};

verus! {

/// The SHA-256 digest of a byte sequence.
pub uninterp spec fn sha256_of(data: Seq<u8>) -> Seq<u8>;

/// Relies on sha2's `Sha256::digest`: it returns the SHA-256 digest of the
/// bytes, a function of them alone, 32 bytes long.
#[verifier::external_body]
fn sha256_digest(data: &[u8]) -> (r: Vec<u8>)
    ensures
        r@ == sha256_of(data@),
        r@.len() == 32,
{
    sha2::Sha256::digest(data).to_vec()
}

/// The lowercase hexadecimal digits.
pub open spec fn hex_digits() -> Seq<char> {
    seq!['0', '1', '2', '3', '4', '5', '6', '7', '8', '9', 'a', 'b', 'c', 'd', 'e', 'f']
}

/// Two lowercase hexadecimal digits for each byte, high digit first.
pub open spec fn hex_of(b: Seq<u8>) -> Seq<char>
    decreases b.len(),
{
    if b.len() == 0 {
        Seq::empty()
    } else {
        hex_of(b.drop_last()) + seq![
            hex_digits()[b.last() as int / 16],
            hex_digits()[b.last() as int % 16],
        ]
    }
}

/// Two digits for each byte.
pub proof fn lemma_hex_len(b: Seq<u8>)
    ensures
        hex_of(b).len() == 2 * b.len(),
    decreases b.len(),
{
    if b.len() > 0 {
        lemma_hex_len(b.drop_last());
    }
}

/// The decimal digits of a number, without leading zeros.
pub open spec fn decimal_of(n: nat) -> Seq<char>
    decreases n,
{
    if n < 10 {
        seq![hex_digits()[n as int]]
    } else {
        decimal_of(n / 10) + seq![hex_digits()[(n % 10) as int]]
    }
}

/// The digit of value `d` (below 16), as a one-character string.
fn digit_str(d: usize) -> (r: &'static str)
    requires
        d < 16,
    ensures
        r@ == seq![hex_digits()[d as int]],
{
    let digits = "0123456789abcdef";
    proof {
        reveal_strlit("0123456789abcdef");
    }
    let r = digits.substring_char(d, d + 1);
    assert(r@ =~= seq![hex_digits()[d as int]]);
    r
}

/// Encodes bytes as lowercase hexadecimal.
pub fn hex_string(bytes: &[u8]) -> (r: String)
    ensures
        r@ == hex_of(bytes@),
{
    let mut r = String::new();
    let mut i: usize = 0;
    while i < bytes.len()
        invariant
            i <= bytes@.len(),
            r@ == hex_of(bytes@.subrange(0, i as int)),
        decreases bytes@.len() - i,
    {
        let b = bytes[i];
        let ghost before = r@;
        r.append(digit_str((b / 16) as usize));
        r.append(digit_str((b % 16) as usize));
        assert(bytes@.subrange(0, i + 1).drop_last() =~= bytes@.subrange(0, i as int));
        assert(r@ =~= before + seq![hex_digits()[b as int / 16], hex_digits()[b as int % 16]]);
        i = i + 1;
    }
    assert(bytes@.subrange(0, i as int) =~= bytes@);
    r
}

/// The hexadecimal SHA-256 digest of a byte buffer.
pub fn hash_u8_array(data: &[u8]) -> (r: String)
    ensures
        r@ == hex_of(sha256_of(data@)),
        r@.len() == 64,
{
    let digest = sha256_digest(data);
    proof {
        lemma_hex_len(digest@);
    }
    hex_string(digest.as_slice())
}

/// The decimal form of a number.
pub fn decimal_string(n: u32) -> (r: String)
    ensures
        r@ == decimal_of(n as nat),
    decreases n,
{
    if n < 10 {
        String::from_str(digit_str(n as usize))
    } else {
        let mut r = decimal_string(n / 10);
        r.append(digit_str((n % 10) as usize));
        r
    }
}

/// The path of the cached artifact for an image whose pixels hash to
/// `hash`, resized within `max_w` by `max_h`, with or without the
/// high-quality filter.
pub open spec fn thumbnail_path_of(hash: Seq<char>, max_w: u32, max_h: u32, hq: bool) -> Seq<char> {
    "./thumbs/"@ + hash + "-w"@ + decimal_of(max_w as nat) + "h"@ + decimal_of(max_h as nat)
        + "-hq-"@ + (if hq {
        "true"@
    } else {
        "false"@
    }) + ".jpeg"@
}

/// The cache key of a thumbnail: the artifact path for these pixels and
/// these parameters.
pub open spec fn cache_key(pixels: Seq<u8>, max_w: u32, max_h: u32, hq: bool) -> Seq<char> {
    thumbnail_path_of(hex_of(sha256_of(pixels)), max_w, max_h, hq)
}

/// The path of the cached artifact, from the pixels' hexadecimal digest.
pub fn thumbnail_path(hash: &str, max_w: u32, max_h: u32, hq: bool) -> (r: String)
    ensures
        r@ == thumbnail_path_of(hash@, max_w, max_h, hq),
{
    let mut r = String::from_str("./thumbs/");
    r.append(hash);
    r.append("-w");
    let w = decimal_string(max_w);
    r.append(w.as_str());
    r.append("h");
    let h = decimal_string(max_h);
    r.append(h.as_str());
    r.append("-hq-");
    if hq {
        r.append("true");
    } else {
        r.append("false");
    }
    r.append(".jpeg");
    r
}

/// The cache key of a thumbnail of the given decoded pixels.
pub fn thumbnail_key(pixels: &[u8], max_w: u32, max_h: u32, hq: bool) -> (r: String)
    ensures
        r@ == cache_key(pixels@, max_w, max_h, hq),
{
    let hash = hash_u8_array(pixels);
    thumbnail_path(hash.as_str(), max_w, max_h, hq)
}

/// Identical decoded pixels and identical parameters give the same cache
/// key, wherever the pixels came from.
pub proof fn lemma_key_depends_on_content(
    a: Seq<u8>,
    b: Seq<u8>,
    max_w: u32,
    max_h: u32,
    hq: bool,
)
    requires
        a == b,
    ensures
        cache_key(a, max_w, max_h, hq) == cache_key(b, max_w, max_h, hq),
{
}

/// What a thumbnail request should do.
#[derive(Clone, Copy, Debug, PartialEq, Eq, Structural)]
pub enum CacheDecision {
    /// The artifact exists: serve it as it is.
    Hit,
    /// No artifact and no generation under way: this request generates it.
    Generate,
    /// Another request is generating it: wait for that one to finish.
    Wait,
}

/// The cache's state, over plain values.
pub struct CacheView {
    pub stored: Seq<Seq<char>>,
    pub in_flight: Seq<Seq<char>>,
    pub generations: u64,
}

/// The keys known to be stored, the keys being generated, and how many
/// generations were started. At most one generation runs per key.
pub struct ThumbnailCache {
    stored: Vec<String>,
    in_flight: Vec<String>,
    generations: u64,
}

/// `s` without any occurrence of `k`.
pub open spec fn without(s: Seq<Seq<char>>, k: Seq<char>) -> Seq<Seq<char>> {
    s.filter_map(|x: Seq<char>| if x == k { None } else { Some(x) })
}

/// The state after a request for `key`, and the decision it gets.
/// `on_disk` tells whether the artifact was found on disk.
pub open spec fn request_next(s: CacheView, key: Seq<char>, on_disk: bool) -> (CacheView, CacheDecision) {
    if on_disk || s.stored.contains(key) {
        (s, CacheDecision::Hit)
    } else if s.in_flight.contains(key) {
        (s, CacheDecision::Wait)
    } else {
        (
            CacheView {
                in_flight: s.in_flight.push(key),
                generations: if s.generations < u64::MAX {
                    (s.generations + 1) as u64
                } else {
                    s.generations
                },
                ..s
            },
            CacheDecision::Generate,
        )
    }
}

/// The state after the generation of `key` ended, stored or not.
pub open spec fn finish_next(s: CacheView, key: Seq<char>, stored: bool) -> CacheView {
    CacheView {
        in_flight: without(s.in_flight, key),
        stored: if stored && !s.stored.contains(key) {
            s.stored.push(key)
        } else {
            s.stored
        },
        ..s
    }
}

impl View for ThumbnailCache {
    type V = CacheView;

    closed spec fn view(&self) -> CacheView {
        CacheView {
            stored: strings_view(self.stored@),
            in_flight: strings_view(self.in_flight@),
            generations: self.generations,
        }
    }
}

impl ThumbnailCache {
    /// An empty cache.
    pub fn new() -> (r: ThumbnailCache)
        ensures
            r@.stored.len() == 0,
            r@.in_flight.len() == 0,
            r@.generations == 0,
    {
        let r = ThumbnailCache { stored: Vec::new(), in_flight: Vec::new(), generations: 0 };
        assert(strings_view(r.stored@) =~= Seq::empty());
        assert(strings_view(r.in_flight@) =~= Seq::empty());
        r
    }

    /// How many generations were started.
    pub fn generations(&self) -> (r: u64)
        ensures
            r == self@.generations,
    {
        self.generations
    }

    /// Decides a request for `key`: a hit where the artifact exists, a wait
    /// where another request is generating it, else a generation that this
    /// request owns until `finish`.
    pub fn request(&mut self, key: &String, on_disk: bool) -> (r: CacheDecision)
        ensures
            (final(self)@, r) == request_next(old(self)@, key@, on_disk),
    {
        if on_disk || contains_string(&self.stored, key) {
            CacheDecision::Hit
        } else if contains_string(&self.in_flight, key) {
            CacheDecision::Wait
        } else {
            let k = key.clone();
            proof {
                lemma_strings_view_push(self.in_flight@, k);
            }
            self.in_flight.push(k);
            if self.generations < u64::MAX {
                self.generations = self.generations + 1;
            }
            CacheDecision::Generate
        }
    }

    /// Ends the generation of `key`; `stored` tells whether its artifact
    /// was written.
    pub fn finish(&mut self, key: &String, stored: bool)
        ensures
            final(self)@ == finish_next(old(self)@, key@, stored),
    {
        let ghost src = strings_view(self.in_flight@);
        let ghost f = |x: Seq<char>| if x == key@ { None } else { Some(x) };
        let mut kept: Vec<String> = Vec::new();
        let mut i: usize = 0;
        while i < self.in_flight.len()
            invariant
                i <= self.in_flight@.len(),
                src == strings_view(self.in_flight@),
                f == (|x: Seq<char>| if x == key@ { None } else { Some(x) }),
                strings_view(kept@) == src.subrange(0, i as int).filter_map(f),
            decreases self.in_flight@.len() - i,
        {
            proof {
                lemma_filter_map_step(src, f, i as int);
            }
            assert(src[i as int] == self.in_flight@[i as int]@);
            if self.in_flight[i] != *key {
                let k = self.in_flight[i].clone();
                proof {
                    lemma_strings_view_push(kept@, k);
                }
                kept.push(k);
            }
            i = i + 1;
        }
        assert(src.subrange(0, i as int) =~= src);
        self.in_flight = kept;
        if stored && !contains_string(&self.stored, key) {
            let k = key.clone();
            proof {
                lemma_strings_view_push(self.stored@, k);
            }
            self.stored.push(k);
        }
    }
}

/// Once a generation of a key has finished and stored its artifact, a
/// second request for that key is a pure hit: no generation is started.
pub proof fn lemma_second_request_hits(s: CacheView, key: Seq<char>, on_disk: bool, later_on_disk: bool)
    requires
        request_next(s, key, on_disk).1 == CacheDecision::Generate,
    ensures
        ({
            let s1 = request_next(s, key, on_disk).0;
            let s2 = finish_next(s1, key, true);
            request_next(s2, key, later_on_disk).1 == CacheDecision::Hit
                && request_next(s2, key, later_on_disk).0.generations == s1.generations
        }),
{
    let s1 = request_next(s, key, on_disk).0;
    let s2 = finish_next(s1, key, true);
    if !s1.stored.contains(key) {
        assert(s2.stored.last() == key);
        assert(s2.stored.contains(key));
    }
}

/// While a generation of a key is under way, every other request for it
/// waits: no second generation starts.
pub proof fn lemma_single_flight(s: CacheView, key: Seq<char>, on_disk: bool)
    requires
        request_next(s, key, on_disk).1 == CacheDecision::Generate,
    ensures
        ({
            let s1 = request_next(s, key, on_disk).0;
            request_next(s1, key, false).1 == CacheDecision::Wait
                && request_next(s1, key, false).0 == s1
        }),
{
    let s1 = request_next(s, key, on_disk).0;
    assert(s1.in_flight.last() == key);
    assert(s1.in_flight.contains(key));
}

/// image's `DynamicImage`, a decoded image, carried through opaque.
#[verifier::external_type_specification]
#[verifier::external_body]
pub struct ExDynamicImage(image::DynamicImage);

/// How a thumbnail is resized.
#[derive(Clone, Copy, Debug, PartialEq, Eq, Structural)]
pub enum ResizeMethod {
    /// Lanczos resampling, fitted within the bounds.
    HighQuality,
    /// A fast integer resize that keeps the aspect ratio within the bounds.
    Fast,
}

/// The high-quality filter is used only where it was asked for.
pub fn resize_method(hq: Option<bool>) -> (r: ResizeMethod)
    ensures
        r == ResizeMethod::HighQuality <==> hq == Some(true),
{
    match hq {
        Some(true) => ResizeMethod::HighQuality,
        _ => ResizeMethod::Fast,
    }
}

/// The image that Lanczos3 resampling gives within the bounds.
pub uninterp spec fn lanczos_of(img: image::DynamicImage, max_w: u32, max_h: u32) -> image::DynamicImage;

/// The image that the fast integer resize gives within the bounds.
pub uninterp spec fn fast_of(img: image::DynamicImage, max_w: u32, max_h: u32) -> image::DynamicImage;

/// Relies on image's `DynamicImage::resize` with the Lanczos3 filter: a
/// new image that keeps the aspect ratio and fits the bounds, a function of
/// the image and the bounds alone.
#[verifier::external_body]
fn resize_lanczos(img: &image::DynamicImage, max_w: u32, max_h: u32) -> (r: image::DynamicImage)
    ensures
        r == lanczos_of(*img, max_w, max_h),
{
    img.resize(max_w, max_h, image::imageops::FilterType::Lanczos3)
}

/// Relies on image's `DynamicImage::thumbnail`: a new image scaled by a
/// fast integer algorithm, keeping the aspect ratio within the bounds, a
/// function of the image and the bounds alone.
#[verifier::external_body]
fn resize_fast(img: &image::DynamicImage, max_w: u32, max_h: u32) -> (r: image::DynamicImage)
    ensures
        r == fast_of(*img, max_w, max_h),
{
    img.thumbnail(max_w, max_h)
}

/// Resizes a decoded image into a thumbnail within `max_w` by `max_h`, by
/// the method that `hq` selects (see `resize_method`).
pub fn generate_thumbnail(img: &image::DynamicImage, max_h: u32, max_w: u32, hq: Option<bool>) -> (r:
    image::DynamicImage)
    ensures
        hq == Some(true) ==> r == lanczos_of(*img, max_w, max_h),
        hq != Some(true) ==> r == fast_of(*img, max_w, max_h),
{
    match resize_method(hq) {
        ResizeMethod::HighQuality => resize_lanczos(img, max_w, max_h),
        ResizeMethod::Fast => resize_fast(img, max_w, max_h),
    }
}

/// The largest thumbnail side when a request names none.
pub const DEFAULT_THUMBNAIL_SIDE: u32 = 512;

/// A thumbnail request: the image's path and the optional bounds and
/// quality.
pub struct ThumbnailRequestParam {
    pub path: String,
    pub hq: Option<bool>,
    pub max_w: Option<u32>,
    pub max_h: Option<u32>,
}

impl ThumbnailRequestParam {
    /// The width bound, 512 where none was given.
    pub fn width(&self) -> (r: u32)
        ensures
            r == match self.max_w {
                Some(w) => w,
                None => DEFAULT_THUMBNAIL_SIDE,
            },
    {
        match self.max_w {
            Some(w) => w,
            None => DEFAULT_THUMBNAIL_SIDE,
        }
    }

    /// The height bound, 512 where none was given.
    pub fn height(&self) -> (r: u32)
        ensures
            r == match self.max_h {
                Some(h) => h,
                None => DEFAULT_THUMBNAIL_SIDE,
            },
    {
        match self.max_h {
            Some(h) => h,
            None => DEFAULT_THUMBNAIL_SIDE,
        }
    }

    /// Whether the high-quality filter was asked for; false by default.
    pub fn high_quality(&self) -> (r: bool)
        ensures
            r == (self.hq == Some(true)),
    {
        match self.hq {
            Some(q) => q,
            None => false,
        }
    }
}

} // verus!
