use tcw3::geometry::{Box2, Box3, Point2, Point3, Vector2};

fn b2(min: [i32; 2], max: [i32; 2]) -> Box2 {
    Box2::new(Point2::new(min[0], min[1]), Point2::new(max[0], max[1]))
}

fn b3(min: [i32; 3], max: [i32; 3]) -> Box3 {
    Box3::new(
        Point3::new(min[0], min[1], min[2]),
        Point3::new(max[0], max[1], max[2]),
    )
}

#[test]
fn is_empty_box2_u32() {
    let bx = b2([20, 20], [30, 30]);
    assert!(!bx.is_empty(), "{:?}", bx);

    let bxs = [
        b2([20, 20], [20, 30]),
        b2([20, 20], [15, 30]),
        b2([20, 20], [30, 20]),
        b2([20, 20], [30, 15]),
        b2([20, 20], [20, 20]),
        b2([20, 20], [15, 15]),
    ];
    for bx in &bxs {
        assert!(bx.is_empty(), "{:?}", bx);
    }
}

#[test]
fn is_empty_box3_u32() {
    let bx = b3([20, 20, 20], [30, 30, 30]);
    assert!(!bx.is_empty(), "{:?}", bx);

    let bxs = [
        b3([20, 20, 20], [20, 30, 20]),
        b3([20, 20, 20], [15, 30, 20]),
        b3([20, 20, 20], [30, 20, 20]),
        b3([20, 20, 20], [30, 15, 20]),
        b3([20, 20, 20], [20, 20, 20]),
        b3([20, 20, 20], [15, 15, 20]),
        b3([20, 20, 20], [30, 20, 20]),
        b3([20, 20, 20], [30, 20, 15]),
        b3([20, 20, 20], [20, 20, 30]),
    ];
    for bx in &bxs {
        assert!(bx.is_empty(), "{:?}", bx);
    }
}

#[test]
fn is_valid_box2_u32() {
    let bxs = [
        b2([20, 20], [30, 30]),
        b2([20, 20], [20, 30]),
        b2([20, 20], [30, 20]),
        b2([20, 20], [20, 20]),
    ];
    for bx in &bxs {
        assert!(bx.is_valid(), "{:?}", bx);
    }

    let bxs = [
        b2([20, 20], [15, 30]),
        b2([20, 20], [30, 15]),
        b2([20, 20], [15, 15]),
    ];
    for bx in &bxs {
        assert!(!bx.is_valid(), "{:?}", bx);
    }
}

#[test]
fn is_valid_box3_u32() {
    let bxs = [
        b3([20, 20, 20], [30, 30, 30]),
        b3([20, 20, 20], [20, 30, 30]),
        b3([20, 20, 20], [30, 20, 20]),
        b3([20, 20, 20], [20, 20, 20]),
    ];
    for bx in &bxs {
        assert!(bx.is_valid(), "{:?}", bx);
    }

    let bxs = [
        b3([20, 20, 20], [15, 30, 30]),
        b3([20, 20, 20], [30, 15, 30]),
        b3([20, 20, 20], [15, 15, 30]),
        b3([20, 20, 20], [30, 30, 15]),
    ];
    for bx in &bxs {
        assert!(!bx.is_valid(), "{:?}", bx);
    }
}

#[test]
fn box_operations() {
    let a = b2([0, 0], [10, 10]);
    let b = b2([5, 5], [15, 15]);
    let u = a.union(&b);
    assert_eq!(u, b2([0, 0], [15, 15]));
    let i = a.intersection(&b).unwrap();
    assert_eq!(i, b2([5, 5], [10, 10]));
    assert!(a.intersection(&b2([20, 20], [30, 30])).is_none());
    assert!(a.contains_point(&Point2::new(0, 0)));
    assert!(!a.contains_point(&Point2::new(10, 5)));
    assert!(a.contains_point_incl(&Point2::new(10, 5)));
    assert!(a.contains_box(&b2([2, 2], [8, 8])));
    assert!(!a.contains_box(&b2([2, 2], [18, 8])));
    assert_eq!(a.limit_point(&Point2::new(-3, 5)), Point2::new(0, 5));
    let t = a.translate(Vector2 { x: 3, y: 4 });
    assert_eq!(t, b2([3, 4], [13, 14]));
    let s = a.size();
    assert_eq!((s.x, s.y), (10, 10));
    assert_eq!(
        Box2::with_size(Point2::new(1, 2), Vector2 { x: 4, y: 8 }),
        b2([1, 2], [5, 10])
    );
}

#[test]
fn it_works() {
    assert_eq!(2 + 2, 4);
}
