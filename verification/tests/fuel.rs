use aoc01::fuel::{
    calculate, consumption, refined_consumption, refined_fuel, refined_total, simple_fuel,
    simple_total,
};
use aoc01::input::InputError;
use aoc01::literal::LiteralError;

/// The fuel chain of a mass, added up term by term.
fn chain_sum(mass: i128) -> i128 {
    let mut total = 0;
    let mut fuel = mass.div_euclid(3) - 2;
    while fuel > 0 {
        total += fuel;
        fuel = fuel.div_euclid(3) - 2;
    }
    total
}

#[test]
fn mass_100756() {
    assert_eq!(simple_fuel(100756), 33583);
    assert_eq!(calculate(100756), 50346);
    assert_eq!(refined_fuel(100756), 50346);
}

#[test]
fn mass_14() {
    assert_eq!(simple_fuel(14), 2);
    assert_eq!(calculate(14), 2);
    assert_eq!(refined_fuel(14), 2);
    assert_eq!(simple_fuel(2), -2);
    assert_eq!(calculate(2), 0);
}

#[test]
fn mass_1969() {
    assert_eq!(simple_fuel(1969), 654);
    assert_eq!(calculate(1969), 966);
    assert_eq!(refined_fuel(1969), 966);
}

#[test]
fn mass_12() {
    assert_eq!(simple_fuel(12), 2);
    assert_eq!(calculate(12), 2);
}

#[test]
fn simple_fuel_is_a_third_less_two() {
    for mass in 0usize..3000 {
        assert_eq!(simple_fuel(mass), (mass / 3) as isize - 2);
    }
}

#[test]
fn simple_fuel_goes_below_zero_for_small_masses() {
    assert_eq!(simple_fuel(0), -2);
    assert_eq!(simple_fuel(2), -2);
    assert_eq!(simple_fuel(3), -1);
    assert_eq!(simple_fuel(5), -1);
    assert_eq!(simple_fuel(6), 0);
    assert_eq!(simple_fuel(8), 0);
    assert_eq!(simple_fuel(9), 1);
}

#[test]
fn simple_fuel_of_the_largest_mass() {
    assert_eq!(simple_fuel(usize::MAX), (usize::MAX / 3) as isize - 2);
}

#[test]
fn calculate_adds_up_the_chain() {
    for mass in -20isize..5000 {
        assert_eq!(calculate(mass) as i128, chain_sum(mass as i128), "mass {}", mass);
    }
    for mass in [isize::MAX, isize::MAX - 1, isize::MAX / 2, 1 << 40, 123_456_789_012] {
        assert_eq!(calculate(mass) as i128, chain_sum(mass as i128), "mass {}", mass);
    }
}

#[test]
fn calculate_of_a_negative_mass_is_nothing() {
    assert_eq!(calculate(-1), 0);
    assert_eq!(calculate(-1969), 0);
    assert_eq!(calculate(isize::MIN), 0);
}

#[test]
fn calculate_of_a_small_mass_is_nothing() {
    for mass in 0..9 {
        assert_eq!(calculate(mass), 0);
    }
    assert_eq!(calculate(9), 1);
    assert_eq!(calculate(32), 8);
    assert_eq!(calculate(33), 10);
}

#[test]
fn refined_fuel_adds_up_the_chain() {
    for mass in 0usize..5000 {
        assert_eq!(refined_fuel(mass) as i128, chain_sum(mass as i128), "mass {}", mass);
        assert_eq!(refined_fuel(mass), calculate(mass as isize));
    }
    for mass in [usize::MAX, usize::MAX - 1, usize::MAX / 2 + 1, usize::MAX / 2] {
        assert_eq!(refined_fuel(mass) as i128, chain_sum(mass as i128), "mass {}", mass);
    }
}

#[test]
fn fuel_needs_less_fuel_than_it_weighs() {
    let mut mass: usize = 100756;
    let mut chain: Vec<isize> = Vec::new();
    while simple_fuel(mass) > 0 {
        chain.push(simple_fuel(mass));
        mass = simple_fuel(mass) as usize;
    }
    assert_eq!(chain, vec![33583, 11192, 3728, 1240, 411, 135, 43, 12, 2]);
    assert_eq!(chain.iter().sum::<isize>(), calculate(100756));
    for mass in 0usize..2000 {
        assert!(simple_fuel(mass) < mass as isize);
    }
}

#[test]
fn refined_fuel_is_at_most_half_the_mass() {
    for mass in 0usize..5000 {
        assert!(0 <= refined_fuel(mass));
        assert!(refined_fuel(mass) as usize <= mass / 2);
    }
    assert!(refined_fuel(usize::MAX) as usize <= usize::MAX / 2);
}

#[test]
fn simple_total_adds_up() {
    assert_eq!(simple_total(&[12, 14, 1969, 100756]), Some(2 + 2 + 654 + 33583));
    assert_eq!(simple_total(&[]), Some(0));
    assert_eq!(simple_total(&[0, 5, 9]), Some(-2 - 1 + 1));
    assert_eq!(simple_total(&[0, 0, 0]), Some(-6));
}

#[test]
fn simple_total_keeps_to_its_type() {
    let large = usize::MAX;
    let each = (large / 3) as isize - 2;
    assert_eq!(simple_total(&[large]), Some(each));
    assert_eq!(simple_total(&[large, 0]), Some(each - 2));
    assert_eq!(simple_total(&[large, large]), None);
    assert_eq!(simple_total(&[large, large, large, large]), None);
}

#[test]
fn refined_total_adds_up() {
    assert_eq!(refined_total(&[12, 14, 1969, 100756]), Some(2 + 2 + 966 + 50346));
    assert_eq!(refined_total(&[]), Some(0));
    assert_eq!(refined_total(&[0, 5, 8]), Some(0));
}

#[test]
fn refined_total_keeps_to_its_type() {
    let large = usize::MAX;
    assert_eq!(refined_total(&[large]), Some(refined_fuel(large)));
    assert_eq!(refined_total(&[large, large, large]), None);
}

#[test]
fn totals_do_not_depend_on_order() {
    assert_eq!(simple_total(&[100756, 3, 1969, 14]), simple_total(&[3, 14, 1969, 100756]));
    assert_eq!(refined_total(&[100756, 3, 1969, 14]), refined_total(&[3, 14, 1969, 100756]));
}

#[test]
fn consumption_of_a_list() {
    assert_eq!(consumption("12\n14\n1969\n100756\n"), Ok(34241));
    assert_eq!(refined_consumption("12\n14\n1969\n100756\n"), Ok(51316));
    assert_eq!(consumption("100756"), Ok(33583));
    assert_eq!(refined_consumption("100756"), Ok(50346));
}

#[test]
fn consumption_sums_negative_amounts_as_they_are() {
    assert_eq!(consumption("0\n3\n"), Ok(-3));
    assert_eq!(refined_consumption("0\n3\n"), Ok(0));
    assert_eq!(consumption("2\n14\n"), Ok(0));
}

#[test]
fn consumption_of_no_line() {
    assert_eq!(consumption(""), Ok(0));
    assert_eq!(refined_consumption(""), Ok(0));
}

#[test]
fn consumption_stops_at_a_bad_line() {
    let bad = Err(InputError::Parse { line: 1, kind: LiteralError::InvalidDigit });
    assert_eq!(consumption("12\nfourteen\n1969\n"), bad);
    assert_eq!(refined_consumption("12\nfourteen\n1969\n"), bad);
    assert_eq!(consumption("12\n-14\n"), bad);
    assert_eq!(refined_consumption("12\n-14\n"), bad);
}

#[test]
fn consumption_takes_no_blank_line() {
    let blank = Err(InputError::Parse { line: 2, kind: LiteralError::Empty });
    assert_eq!(consumption("12\n14\n\n"), blank);
    assert_eq!(refined_consumption("12\n14\n\n1969"), blank);
}

#[test]
fn consumption_takes_no_mass_beyond_a_word() {
    let huge = Err(InputError::Parse { line: 0, kind: LiteralError::PosOverflow });
    assert_eq!(consumption("340282366920938463463374607431768211456\n"), huge);
    assert_eq!(refined_consumption("340282366920938463463374607431768211456\n"), huge);
}

#[test]
fn consumption_that_does_not_fit() {
    let large = usize::MAX.to_string();
    let input = format!("{}\n{}\n{}\n", large, large, large);
    assert_eq!(consumption(&input), Err(InputError::Overflow));
    assert_eq!(refined_consumption(&input), Err(InputError::Overflow));
}

#[test]
fn consumption_is_the_same_every_time() {
    let input = "12\n14\n1969\n100756\n";
    assert_eq!(consumption(input), consumption(input));
    assert_eq!(refined_consumption(input), refined_consumption(input));
}
