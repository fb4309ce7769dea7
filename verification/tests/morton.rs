use sim::bvh::{embed_even_bits, morton_encode};
use sim::lbvh::morton_code;
use sim::math::{Box2D, Vec2};

#[test]
fn even_bits_are_spread() {
    assert_eq!(embed_even_bits(0), 0);
    assert_eq!(embed_even_bits(1), 1);
    assert_eq!(embed_even_bits(0b11), 0b101);
    assert_eq!(embed_even_bits(0b1010), 0b1000100);
    assert_eq!(embed_even_bits(u32::MAX), 0x5555_5555_5555_5555);
    assert_eq!(embed_even_bits(0x8000_0000), 1u64 << 62);
}

#[test]
fn morton_interleaves_x_and_y() {
    assert_eq!(morton_encode(0, 0), 0);
    assert_eq!(morton_encode(0b11, 0b01), 0b0111);
    assert_eq!(morton_encode(0, 0b11), 0b1010);
    assert_eq!(morton_encode(u32::MAX, 0), 0x5555_5555_5555_5555);
    assert_eq!(morton_encode(0, u32::MAX), 0xAAAA_AAAA_AAAA_AAAA);
    assert_eq!(morton_encode(1 << 20, 1 << 20), (1u64 << 40) | (1u64 << 41));
}

#[test]
fn morton_code_quantises_the_centroid() {
    let bounding = Box2D { min: Vec2 { x: 0, y: 0 }, max: Vec2 { x: 1024, y: 1024 } };
    let low = Box2D { min: Vec2 { x: 0, y: 0 }, max: Vec2 { x: 0, y: 0 } };
    assert_eq!(morton_code(&low, &bounding), 0);
    let high = Box2D { min: Vec2 { x: 1024, y: 1024 }, max: Vec2 { x: 1024, y: 1024 } };
    assert_eq!(morton_code(&high, &bounding), morton_encode(1 << 20, 1 << 20));
    let middle = Box2D { min: Vec2 { x: 0, y: 512 }, max: Vec2 { x: 1024, y: 512 } };
    assert_eq!(morton_code(&middle, &bounding), morton_encode(1 << 19, 1 << 19));
    let third = Box2D { min: Vec2 { x: 341, y: 0 }, max: Vec2 { x: 341, y: 0 } };
    // floor(341 / 1024 * 2^20) = 349184
    assert_eq!(morton_code(&third, &bounding), morton_encode(349184, 0));
}

#[test]
fn morton_code_on_a_flat_bounding_box() {
    let bounding = Box2D { min: Vec2 { x: 5, y: 0 }, max: Vec2 { x: 5, y: 100 } };
    let b = Box2D { min: Vec2 { x: 5, y: 50 }, max: Vec2 { x: 5, y: 100 } };
    // No extent along x: the x part of the code is 0. Along y the centroid is at 3/4.
    assert_eq!(morton_code(&b, &bounding), morton_encode(0, 3 << 18));
}
