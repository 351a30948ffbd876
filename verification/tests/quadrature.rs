use fem_assembly::quadrature_rules::create_2d_from_1d;
use fem_assembly::quadrature_rules::create_3d_from_1d;
use fem_assembly::quadrature_rules::create_linear_1d_rule;
use fem_assembly::quadrature_rules::create_quadratic_1d_rule;
use fem_assembly::quadrature_rules::QuadratureError;
use fem_assembly::quadrature_rules::RationalWeight;
use fem_assembly::quadrature_rules::SurdCoordinate;

fn coordinate_value(c: &SurdCoordinate) -> f64 {
    (c.num as f64 + c.surd_num as f64 * (c.radicand as f64).sqrt()) / c.den as f64
}

fn weight_value(w: &RationalWeight) -> f64 {
    w.num as f64 / w.den as f64
}

#[test]
fn test_linear_1d_rule() {
    let rule = create_linear_1d_rule();
    assert_eq!(rule.points.len(), 2);
    assert_eq!(rule.weights.len(), 2);

    // Check points are in [0,1]
    for point in &rule.points {
        let x = coordinate_value(&point[0]);
        assert!(x >= 0.0 && x <= 1.0);
    }

    // Check weights sum to 1 (for integrating constants correctly)
    let sum: f64 = rule.weights.iter().map(weight_value).sum();
    println!("LINEAR 1D\npoints={:?}, \nweights={:?}, sum={}\n", rule.points, rule.weights, sum);
    assert!((sum - 1.0).abs() < 1e-12);
}

#[test]
fn test_quadratic_1d_rule() {
    let rule = create_quadratic_1d_rule();
    assert_eq!(rule.points.len(), 3);
    assert_eq!(rule.weights.len(), 3);

    for point in &rule.points {
        let x = coordinate_value(&point[0]);
        assert!(x >= 0.0 && x <= 1.0);
    }

    let sum: f64 = rule.weights.iter().map(weight_value).sum();
    println!(
        "QUADRATIC 1D\npoints={:?}, \nweights={:?}, sum={}\n",
        rule.points, rule.weights, sum
    );
    assert!((sum - 1.0).abs() < 1e-12);
}

#[test]
fn test_2d_from_1d_linear() {
    let rule_1d = create_linear_1d_rule();
    let rule = create_2d_from_1d(&rule_1d, 4).unwrap();
    assert_eq!(rule.points.len(), 4);
    assert_eq!(rule.weights.len(), 4);

    for point in &rule.points {
        for axis in point.iter() {
            let x = coordinate_value(axis);
            assert!(x >= 0.0 && x <= 1.0);
        }
    }

    let sum: f64 = rule.weights.iter().map(weight_value).sum();
    println!("LINEAR 2D\npoints={:?}, \nweights={:?}, sum={}\n", rule.points, rule.weights, sum);
    assert!((sum - 1.0).abs() < 1e-12);
}

#[test]
fn test_2d_from_1d_quadratic() {
    let rule_1d = create_quadratic_1d_rule();
    let rule = create_2d_from_1d(&rule_1d, 9).unwrap();
    assert_eq!(rule.points.len(), 9);
    assert_eq!(rule.weights.len(), 9);

    for point in &rule.points {
        for axis in point.iter() {
            let x = coordinate_value(axis);
            assert!(x >= 0.0 && x <= 1.0);
        }
    }

    let sum: f64 = rule.weights.iter().map(weight_value).sum();
    println!(
        "QUADRATIC 2D\npoints={:?}, \nweights={:?}, sum={}\n",
        rule.points, rule.weights, sum
    );
}

#[test]
fn test_3d_from_1d_linear() {
    let rule_1d = create_linear_1d_rule();
    let rule = create_3d_from_1d(&rule_1d, 8).unwrap();
    assert_eq!(rule.points.len(), 8);
    assert_eq!(rule.weights.len(), 8);

    for point in &rule.points {
        assert_eq!(point.len(), 3);
        for axis in point.iter() {
            let x = coordinate_value(axis);
            assert!(x >= 0.0 && x <= 1.0);
        }
    }

    let sum: f64 = rule.weights.iter().map(weight_value).sum();
    println!("LINEAR 3D\npoints={:?}, \nweights={:?}, sum={}\n", rule.points, rule.weights, sum);
    assert!((sum - 1.0).abs() < 1e-12);
}

#[test]
fn test_3d_from_1d_quadratic() {
    let rule_1d = create_quadratic_1d_rule();
    let rule = create_3d_from_1d(&rule_1d, 27).unwrap();
    assert_eq!(rule.points.len(), 27);
    assert_eq!(rule.weights.len(), 27);

    for point in &rule.points {
        assert_eq!(point.len(), 3);
        for axis in point.iter() {
            let x = coordinate_value(axis);
            assert!(x >= 0.0 && x <= 1.0);
        }
    }

    let sum: f64 = rule.weights.iter().map(weight_value).sum();
    println!(
        "QUADRATIC 3D\npoints={:?}, \nweights={:?}, sum={}\n",
        rule.points, rule.weights, sum
    );
    assert!((sum - 1.0).abs() < 1e-12);
}

#[test]
fn test_dimension_mismatch_error() {
    // Trying to create a 2D rule with the wrong output length fails.
    let rule_1d = create_linear_1d_rule();
    let result = create_2d_from_1d(&rule_1d, 3);
    assert!(matches!(
        result,
        Err(QuadratureError::DimensionMismatch { expected: 3, actual: 4 })
    ));

    // Trying to create a 3D rule with the wrong output length fails.
    let result = create_3d_from_1d(&rule_1d, 7);
    assert!(matches!(
        result,
        Err(QuadratureError::DimensionMismatch { expected: 7, actual: 8 })
    ));
}

#[test]
fn test_into_iterator() {
    let rule = create_linear_1d_rule();
    let mut sum = 0.0;

    for (point, weight) in rule.pairs() {
        sum += weight_value(&weight);
        let x = coordinate_value(&point[0]);
        assert!(x >= 0.0 && x <= 1.0);
    }

    println!("test_into_iterator -> sum={}\n", sum);
    assert!((sum - 1.0).abs() < 1e-12);
}

#[test]
fn test_quadrature_accuracy() {
    // The quadrature rules integrate polynomials exactly.

    // Linear 1D rule integrates linear functions exactly.
    let linear_rule_1d = create_linear_1d_rule();
    let mut integral = 0.0;
    for (point, weight) in linear_rule_1d.pairs() {
        let x = coordinate_value(&point[0]);
        integral += weight_value(&weight) * (2.0 * x + 3.0); // Integral of 2x + 3 on [0,1] is 4
    }
    println!("linear_rule_1d: expected = 4.0, actual integral = {}", integral);
    assert!((integral - 4.0).abs() < 1e-10);

    // Linear 2D rule integrates bilinear functions exactly.
    let linear_rule_2d = create_2d_from_1d(&linear_rule_1d, 4).unwrap();
    let mut integral = 0.0;
    for (point, weight) in linear_rule_2d.pairs() {
        let x = coordinate_value(&point[0]);
        let y = coordinate_value(&point[1]);
        integral += weight_value(&weight) * (x * y); // Integral of xy on [0,1]^2 is 0.25
    }
    println!("linear_rule_2d: expected = 0.25, actual integral = {}", integral);
    assert!((integral - 0.25).abs() < 1e-10);

    // Linear 3D rule integrates trilinear functions exactly.
    let linear_rule_3d = create_3d_from_1d(&linear_rule_1d, 8).unwrap();
    let mut integral = 0.0;
    for (point, weight) in linear_rule_3d.pairs() {
        let x = coordinate_value(&point[0]);
        let y = coordinate_value(&point[1]);
        let z = coordinate_value(&point[2]);
        integral += weight_value(&weight) * ((4.0 + x) * y * z); // Integral of (4+x)yz on [0,1]^3 is 1.125
    }
    println!("linear_rule_3d: expected = 1.125, actual integral = {}", integral);
    assert!((integral - 1.125).abs() < 1e-10);

    // The two-point Gauss rule integrates cubics exactly as well.
    let quad_rule_1d = create_linear_1d_rule();
    let mut integral = 0.0;
    for (point, weight) in quad_rule_1d.pairs() {
        let x = coordinate_value(&point[0]);
        integral += weight_value(&weight) * (3.0 * x * x + 2.0 * x + 1.0); // Integral of 3x^2 + 2x + 1 on [0,1] is 3
    }
    println!("quad_rule_1d: expected = 3.0, actual integral = {}", integral);
    assert!((integral - 3.0).abs() < 1e-10);

    // Product of quadratics over the square.
    let quad_rule_2d = create_2d_from_1d(&linear_rule_1d, 4).unwrap();
    let mut integral = 0.0;
    for (point, weight) in quad_rule_2d.pairs() {
        let x = coordinate_value(&point[0]);
        let y = coordinate_value(&point[1]);
        integral += weight_value(&weight) * (3.0 * x * x + 2.0 * x + 1.0) * (6.0 * y * y - 2.0
            * y + 1.0); // Integral of (3x^2 + 2x + 1)(6y^2 - 2y + 1) on [0,1]^2 is 6
    }
    println!("quad_rule_2d: expected = 6.0, actual integral = {}", integral);
    assert!((integral - 6.0).abs() < 1e-10);

    // Product of quadratics over the cube.
    let quad_rule_3d = create_3d_from_1d(&linear_rule_1d, 8).unwrap();
    let mut integral = 0.0;
    for (point, weight) in quad_rule_3d.pairs() {
        let x = coordinate_value(&point[0]);
        let y = coordinate_value(&point[1]);
        let z = coordinate_value(&point[2]);
        integral += weight_value(&weight) * (3.0 * x * x + 2.0 * x + 1.0) * (2.0 * 3.0 * y * y
            - 2.0 * y + 2.0) * (-2.0 * 3.0 * z * z + 2.0 * z - 1.0); // Integral on [0,1]^3 is -18
    }
    println!("quad_rule_3d: expected = -18.0, actual integral = {}", integral);
    assert!((integral - (-18.0)).abs() < 1e-10);
}
