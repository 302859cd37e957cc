use business_calendar::normalize::sorted_unique;
use business_calendar::BusinessCalendar;

fn all_days(cal: &BusinessCalendar) -> Vec<i32> {
    cal.business_days_in_range(i32::MIN, i32::MAX)
}

#[test]
fn unsorted_input_with_a_repeat_is_normalized() {
    let cal = BusinessCalendar::new(vec![9, 3, 1, 7, 5, 3]);
    assert_eq!(all_days(&cal), vec![1, 3, 5, 7, 9]);
    assert_eq!(cal.len(), 5);
    assert!(!cal.is_empty());
}

#[test]
fn empty_input_gives_an_empty_calendar() {
    let cal = BusinessCalendar::new(Vec::new());
    assert_eq!(cal.len(), 0);
    assert!(cal.is_empty());
    assert_eq!(all_days(&cal), Vec::<i32>::new());
}

#[test]
fn single_ordinal_calendar() {
    let cal = BusinessCalendar::new(vec![42]);
    assert_eq!(cal.len(), 1);
    assert!(!cal.is_empty());
    assert_eq!(all_days(&cal), vec![42]);
}

#[test]
fn repeats_only_leave_one_day() {
    let cal = BusinessCalendar::new(vec![7, 7, 7, 7, 7]);
    assert_eq!(cal.len(), 1);
    assert_eq!(all_days(&cal), vec![7]);
}

#[test]
fn descending_input_is_reversed() {
    let cal = BusinessCalendar::new(vec![50, 40, 30, 20, 10]);
    assert_eq!(all_days(&cal), vec![10, 20, 30, 40, 50]);
}

#[test]
fn sorted_input_is_kept() {
    let cal = BusinessCalendar::new(vec![-3, -1, 0, 2, 8]);
    assert_eq!(all_days(&cal), vec![-3, -1, 0, 2, 8]);
}

#[test]
fn negative_and_extreme_ordinals_are_ordered() {
    let cal = BusinessCalendar::new(vec![0, i32::MAX, -5, i32::MIN, 5, i32::MAX, i32::MIN]);
    assert_eq!(all_days(&cal), vec![i32::MIN, -5, 0, 5, i32::MAX]);
    assert_eq!(cal.len(), 5);
}

#[test]
fn same_ordinals_in_another_order_give_the_same_calendar() {
    let a = BusinessCalendar::new(vec![4, 8, 15, 16, 23, 42]);
    let b = BusinessCalendar::new(vec![42, 4, 23, 8, 16, 15, 4, 42, 8]);
    assert_eq!(all_days(&a), all_days(&b));
    assert_eq!(a.len(), b.len());
}

#[test]
fn sorted_unique_sorts_and_drops_repeats() {
    assert_eq!(sorted_unique(&vec![9, 3, 1, 7, 5, 3]), vec![1, 3, 5, 7, 9]);
    assert_eq!(sorted_unique(&vec![2, 1]), vec![1, 2]);
    assert_eq!(sorted_unique(&vec![1, 1]), vec![1]);
    assert_eq!(sorted_unique(&vec![3, 1, 2]), vec![1, 2, 3]);
    assert_eq!(sorted_unique(&vec![2, 2, 1, 1, 3, 3]), vec![1, 2, 3]);
}

#[test]
fn sorted_unique_of_nothing_is_nothing() {
    assert_eq!(sorted_unique(&Vec::new()), Vec::<i32>::new());
}

#[test]
fn sorted_unique_leaves_its_input_alone() {
    let input: Vec<i32> = vec![5, 4, 4, 6];
    let output: Vec<i32> = sorted_unique(&input);
    assert_eq!(input, vec![5, 4, 4, 6]);
    assert_eq!(output, vec![4, 5, 6]);
}

#[test]
fn construction_yields_strictly_increasing_days_on_scrambled_input() {
    let mut state: u64 = 0x2545_F491_4F6C_DD1D;
    let mut input: Vec<i32> = Vec::new();
    let mut round: u32 = 0;
    while round < 2000 {
        state = state.wrapping_mul(6364136223846793005).wrapping_add(1442695040888963407);
        input.push(((state >> 33) % 700) as i32 - 350);
        round += 1;
    }
    let cal = BusinessCalendar::new(input.clone());
    let days: Vec<i32> = all_days(&cal);
    assert_eq!(days.len(), cal.len());
    let mut k: usize = 1;
    while k < days.len() {
        assert!(days[k - 1] < days[k]);
        k += 1;
    }
    for d in input.iter() {
        assert!(cal.is_business_day(*d));
    }
    for d in days.iter() {
        assert!(input.contains(d));
    }
}
