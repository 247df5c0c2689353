use grid2d::Grid;

fn check_operation(
    operation: fn(Grid<i32>, Grid<i32>) -> Grid<i32>,
    assign_operation: fn(&mut Grid<i32>, Grid<i32>),
    validation_operation: fn(i32, i32) -> i32,
) {
    let grid: Grid<i32> = Grid::new((1..10).map(|value| value * 10).collect(), 3, 3);
    let modifier: Grid<i32> = Grid::new((1..10).map(|value| value * 2).collect(), 3, 3);
    let result: Grid<i32> = operation(grid.clone(), modifier.clone());
    let mut result_assign: Grid<i32> = grid.clone();
    assign_operation(&mut result_assign, modifier.clone());

    for (index, (item, item_assign)) in result.into_iter().zip(result_assign).enumerate() {
        let expected: i32 = validation_operation((index as i32 + 1) * 10, (index as i32 + 1) * 2);
        assert_eq!(item, expected);
        assert_eq!(item_assign, expected);
    }
}

#[test]
fn test_add() {
    check_operation(|left, right| left + right, |left, right| left.add_assign(right), |left, right| {
        left + right
    });
}

#[test]
fn test_sub() {
    check_operation(|left, right| left - right, |left, right| left.sub_assign(right), |left, right| {
        left - right
    });
}

#[test]
fn test_mult() {
    check_operation(|left, right| left * right, |left, right| left.mul_assign(right), |left, right| {
        left * right
    });
}

#[test]
fn test_div() {
    check_operation(|left, right| left / right, |left, right| left.div_assign(right), |left, right| {
        left / right
    });
}

#[test]
fn test_add_touches_the_overlap_only() {
    let left: Grid<i32> = Grid::new(vec![1, 1, 1, 1, 1, 1], 3, 2);
    let right: Grid<i32> = Grid::new(vec![5, 5, 5, 5, 5, 5], 2, 3);
    let sum: Grid<i32> = left + right;
    assert_eq!((sum.width(), sum.height()), (3, 2));
    assert_eq!(sum.data(), &[6, 6, 1, 6, 6, 1]);
}

#[test]
fn test_combine_with_custom_operation() {
    let mut left: Grid<i32> = Grid::new(vec![1, 2, 3, 4], 2, 2);
    let right: Grid<i32> = Grid::new(vec![10], 1, 1);
    left.combine_with(&right, |a, b| a.max(b));
    assert_eq!(left.data(), &[10, 2, 3, 4]);
}

#[test]
fn test_bitand() {
    check_operation(|left, right| left & right, |left, right| left.bitand_assign(right), |left, right| {
        left & right
    });
}

#[test]
fn test_bitor() {
    check_operation(|left, right| left | right, |left, right| left.bitor_assign(right), |left, right| {
        left | right
    });
}

#[test]
fn test_bitxor() {
    check_operation(|left, right| left ^ right, |left, right| left.bitxor_assign(right), |left, right| {
        left ^ right
    });
}

#[test]
fn test_shl() {
    check_operation(|left, right| left << right, |left, right| left.shl_assign(right), |left, right| {
        left << right
    });
}

#[test]
fn test_shr() {
    check_operation(|left, right| left >> right, |left, right| left.shr_assign(right), |left, right| {
        left >> right
    });
}
