use corral::bounding_box::BoundingBox;

#[test]
fn tree2d2_bb_horizontal_add() {
    let bb1 = BoundingBox {
        x: 0,
        y: 0,
        width: 1,
        height: 1,
    };
    let bb2 = BoundingBox {
        x: 1,
        y: 0,
        width: 1,
        height: 1,
    };
    let expected_output = BoundingBox {
        x: 0,
        y: 0,
        width: 2,
        height: 1,
    };
    assert_eq!(expected_output, bb1 + bb2);
    assert_eq!(expected_output, bb2 + bb1);
}

#[test]
fn tree2d2_bb_horizontal_overlap_add() {
    let bb1 = BoundingBox {
        x: 0,
        y: 0,
        width: 2,
        height: 1,
    };
    let bb2 = BoundingBox {
        x: 1,
        y: 0,
        width: 2,
        height: 1,
    };
    let expected_output = BoundingBox {
        x: 0,
        y: 0,
        width: 3,
        height: 1,
    };
    assert_eq!(expected_output, bb1 + bb2);
    assert_eq!(expected_output, bb2 + bb1);
}

#[test]
fn tree2d2_bb_vertival_add() {
    let bb1 = BoundingBox {
        x: 0,
        y: 0,
        width: 1,
        height: 1,
    };
    let bb2 = BoundingBox {
        x: 0,
        y: 1,
        width: 1,
        height: 1,
    };
    let expected_output = BoundingBox {
        x: 0,
        y: 0,
        width: 1,
        height: 2,
    };
    assert_eq!(expected_output, bb1 + bb2);
    assert_eq!(expected_output, bb2 + bb1);
}

#[test]
fn tree2d2_bb_vertival_overlap_add() {
    let bb1 = BoundingBox {
        x: 0,
        y: 0,
        width: 1,
        height: 2,
    };
    let bb2 = BoundingBox {
        x: 0,
        y: 1,
        width: 1,
        height: 2,
    };
    let expected_output = BoundingBox {
        x: 0,
        y: 0,
        width: 1,
        height: 3,
    };
    assert_eq!(expected_output, bb1 + bb2);
    assert_eq!(expected_output, bb2 + bb1);
}

#[test]
fn tree2d2_bb_diagonal_add() {
    let bb1 = BoundingBox {
        x: 0,
        y: 0,
        width: 1,
        height: 1,
    };
    let bb2 = BoundingBox {
        x: 1,
        y: 1,
        width: 1,
        height: 1,
    };
    let expected_output = BoundingBox {
        x: 0,
        y: 0,
        width: 2,
        height: 2,
    };
    assert_eq!(expected_output, bb1 + bb2);
    assert_eq!(expected_output, bb2 + bb1);
}

#[test]
fn tree2d2_bb_diagonal_overlap_add() {
    let bb1 = BoundingBox {
        x: 0,
        y: 0,
        width: 2,
        height: 2,
    };
    let bb2 = BoundingBox {
        x: 1,
        y: 1,
        width: 2,
        height: 2,
    };
    let expected_output = BoundingBox {
        x: 0,
        y: 0,
        width: 3,
        height: 3,
    };
    assert_eq!(expected_output, bb1 + bb2);
    assert_eq!(expected_output, bb2 + bb1);
}

#[test]
fn tree2d2_bb_diagonal_disjoint_add() {
    let bb1 = BoundingBox {
        x: 0,
        y: 0,
        width: 1,
        height: 1,
    };
    let bb2 = BoundingBox {
        x: 2,
        y: 2,
        width: 1,
        height: 1,
    };
    let expected_output = BoundingBox {
        x: 0,
        y: 0,
        width: 3,
        height: 3,
    };
    assert_eq!(expected_output, bb1 + bb2);
    assert_eq!(expected_output, bb2 + bb1);
}

#[test]
fn tree2d2_bb_inside_add() {
    let bb1 = BoundingBox {
        x: 0,
        y: 0,
        width: 1,
        height: 1,
    };
    let bb2 = BoundingBox {
        x: 0,
        y: 0,
        width: 1,
        height: 1,
    };
    let expected_output = BoundingBox {
        x: 0,
        y: 0,
        width: 1,
        height: 1,
    };
    assert_eq!(expected_output, bb1 + bb2);
    assert_eq!(expected_output, bb2 + bb1);
}

#[test]
fn tree2d2_bb_cmp_area() {
    let bb1 = BoundingBox {
        x: 0,
        y: 0,
        width: 1,
        height: 1,
    };
    let bb2 = BoundingBox {
        x: 0,
        y: 0,
        width: 2,
        height: 2,
    };
    assert_eq!(true, bb1 < bb2);
    assert_eq!(false, bb2 < bb1);
}

#[test]
fn tree2d2_bb_cmp_perimeter() {
    let bb1 = BoundingBox {
        x: 0,
        y: 0,
        width: 2,
        height: 2,
    };
    let bb2 = BoundingBox {
        x: 0,
        y: 0,
        width: 4,
        height: 1,
    };
    assert_eq!(bb1.area(), bb2.area());
    assert_eq!(true, bb1 < bb2);
    assert_eq!(false, bb2 < bb1);
}
