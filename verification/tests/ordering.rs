use std::cmp::Ordering;

use corral::bounding_box::BoundingBox;

fn sized(width: u32, height: u32) -> BoundingBox {
    BoundingBox {
        x: 0,
        y: 0,
        width,
        height,
    }
}

#[test]
fn smaller_area_compares_smaller_whatever_the_perimeter() {
    // 1 by 8 has the longer border and the smaller area.
    let thin = sized(1, 8);
    let square = sized(3, 3);
    assert_eq!(8, thin.area());
    assert_eq!(18, thin.perimeter());
    assert_eq!(9, square.area());
    assert_eq!(12, square.perimeter());
    assert_eq!(Ordering::Less, thin.cmp(&square));
    assert_eq!(Ordering::Greater, square.cmp(&thin));
    assert!(thin < square);
    assert!(thin.is_ranked_before(&square));
    assert!(!square.is_ranked_before(&thin));
}

#[test]
fn equal_area_compares_by_perimeter() {
    let square = sized(4, 4);
    let strip = sized(8, 2);
    assert_eq!(square.area(), strip.area());
    assert_eq!(Some(Ordering::Less), square.partial_cmp(&strip));
    assert_eq!(Some(Ordering::Greater), strip.partial_cmp(&square));
    assert!(square < strip);
    assert!(strip > square);
}

#[test]
fn equal_area_and_perimeter_compare_equal_wherever_they_lie() {
    let wide = BoundingBox {
        x: 5,
        y: 0,
        width: 6,
        height: 2,
    };
    let tall = BoundingBox {
        x: 0,
        y: 9,
        width: 2,
        height: 6,
    };
    assert_eq!(Ordering::Equal, wide.cmp(&tall));
    assert_eq!(Ordering::Equal, tall.cmp(&wide));
    assert!(!(wide < tall));
    assert!(!(tall < wide));
    assert!(wide <= tall);
    assert_ne!(wide, tall);
}

#[test]
fn ranking_is_exact_beyond_32_bits() {
    let plane = sized(u32::MAX, u32::MAX);
    let nearly = sized(u32::MAX, u32::MAX - 1);
    assert_eq!(18446744065119617025, plane.wide_area());
    assert_eq!(17179869180, plane.wide_perimeter());
    assert!(nearly < plane);
    assert_eq!(Ordering::Greater, plane.cmp(&nearly));
    // 65536 squared wraps to zero in 32 bits; it still ranks above one cell.
    assert!(sized(1, 1) < sized(65536, 65536));
}

#[test]
fn can_contain_is_not_strict() {
    let region = sized(4, 3);
    assert!(region.can_contain(4, 3));
    assert!(region.can_contain(0, 0));
    assert!(!region.can_contain(5, 3));
    assert!(!region.can_contain(4, 4));
}

#[test]
fn union_is_commutative_and_associative() {
    let a = BoundingBox {
        x: 3,
        y: 1,
        width: 2,
        height: 2,
    };
    let b = BoundingBox {
        x: 0,
        y: 4,
        width: 1,
        height: 7,
    };
    let c = BoundingBox {
        x: 9,
        y: 0,
        width: 1,
        height: 1,
    };
    assert_eq!(a + b, b + a);
    assert_eq!((a + b) + c, a + (b + c));
    assert_eq!(
        BoundingBox {
            x: 0,
            y: 0,
            width: 10,
            height: 11
        },
        a + b + c
    );
    assert_eq!(a.union(&b), &a + &b);
}

#[test]
fn union_with_the_zero_box_pulls_the_corner_to_the_origin() {
    let zero = sized(0, 0);
    let far = BoundingBox {
        x: 5,
        y: 7,
        width: 2,
        height: 1,
    };
    assert_eq!(
        BoundingBox {
            x: 0,
            y: 0,
            width: 7,
            height: 8
        },
        zero + far
    );
}

#[test]
fn union_reaches_the_edge_of_the_plane() {
    let a = BoundingBox {
        x: u32::MAX - 1,
        y: 0,
        width: 1,
        height: u32::MAX,
    };
    let b = sized(1, 1);
    assert_eq!(sized(u32::MAX, u32::MAX), a + b);
}

#[test]
fn same_shape_asks_for_both_extents() {
    let region = BoundingBox {
        x: 7,
        y: 9,
        width: 4,
        height: 3,
    };
    assert!(region.same_shape(4, 3));
    assert!(!region.same_shape(3, 4));
    assert!(!region.same_shape(4, 2));
    assert!(!region.same_shape(5, 3));
}
