use simple_budgets::budget::{Budget, BudgetPart};
use simple_budgets::codec::{parse_amount, DecodeError};
use simple_budgets::input::{from_year_to_months, is_bool_value, is_number_value};
use simple_budgets::session::Command;

fn part(name: &str, cents: u64, expandable: bool) -> BudgetPart {
    BudgetPart::new(String::from(name), cents, expandable)
}

fn budget(parts: Vec<BudgetPart>) -> Budget {
    let mut b = Budget::new();
    for p in parts {
        b.push_part(p);
    }
    b
}

fn conserved(b: &Budget, income: u64) -> bool {
    let a = b.allocate(income);
    let f: u64 = a.fixed.iter().sum();
    let e: u64 = a.expandable.iter().sum();
    f + e + a.leftover == income
}

#[test]
fn zero_income_funds_nothing() {
    let b = budget(vec![part("Rent", 10000, false), part("Food", 5000, false), part("Fun", 3000, true)]);
    let a = b.allocate(0);
    assert_eq!(a.fixed, vec![0, 0]);
    assert_eq!(a.expandable, vec![0]);
    assert_eq!(a.leftover, 0);
}

#[test]
fn fixed_parts_use_up_exact_income() {
    let b = budget(vec![part("A", 10000, false), part("B", 5000, false), part("C", 3000, true)]);
    let a = b.allocate(15000);
    assert_eq!(a.fixed, vec![10000, 5000]);
    assert_eq!(a.expandable, vec![0]);
    assert_eq!(a.leftover, 0);
}

#[test]
fn worked_water_filling_example() {
    let b = budget(vec![part("A", 10000, true), part("B", 5000, true)]);
    let a = b.allocate(12000);
    assert_eq!(a.fixed, Vec::<u64>::new());
    assert_eq!(a.expandable, vec![7000, 5000]);
    assert_eq!(a.leftover, 0);
}

#[test]
fn worked_example_after_fixed_funding() {
    let b = budget(vec![part("Rent", 3000, false), part("A", 10000, true), part("B", 5000, true)]);
    let a = b.allocate(15000);
    assert_eq!(a.fixed, vec![3000]);
    assert_eq!(a.expandable, vec![7000, 5000]);
    assert_eq!(a.leftover, 0);
}

#[test]
fn income_below_first_fixed_part() {
    let b = budget(vec![part("Rent", 20000, false), part("Car", 5000, false), part("Fun", 1000, true)]);
    let a = b.allocate(8000);
    assert_eq!(a.fixed, vec![8000, 0]);
    assert_eq!(a.expandable, vec![0]);
    assert_eq!(a.leftover, 0);
}

#[test]
fn delimiter_inside_name_round_trips() {
    let b = budget(vec![part("A?B", 1250, true)]);
    let text = b.encode();
    assert_eq!(text, "\n3?A?B12.5?true\t");
    let back = Budget::decode(&text).unwrap();
    assert_eq!(back.parts().len(), 0);
    let p = &back.expandable_parts()[0];
    assert_eq!(p.name(), "A?B");
    assert_eq!(p.monthly_value(), 1250);
    assert!(p.expandable());
}

#[test]
fn budget_round_trips_through_text() {
    let b = budget(vec![
        part("Rent", 120000, false),
        part("12 monkeys", 5, false),
        part("Savings", 7050, true),
        part("Fun\u{e9}", 100, true),
    ]);
    let text = b.encode();
    assert_eq!(text, "4?Rent1200?false\t10?12 monkeys0.05?false\t\n7?Savings70.5?true\t4?Fun\u{e9}1?true\t");
    let back = Budget::decode(&text).unwrap();
    assert_eq!(back.encode(), text);
    assert_eq!(back.parts()[1].name(), "12 monkeys");
    assert_eq!(back.parts()[1].monthly_value(), 5);
    assert_eq!(back.expandable_parts()[0].monthly_value(), 7050);
}

#[test]
fn empty_budget_encodes_as_newline() {
    let b = Budget::new();
    assert_eq!(b.encode(), "\n");
    let back = Budget::decode("").unwrap();
    assert_eq!(back.parts().len() + back.expandable_parts().len(), 0);
}

#[test]
fn income_is_conserved() {
    let b = budget(vec![
        part("Rent", 70000, false),
        part("Car", 20000, false),
        part("Food", 30000, true),
        part("Fun", 10000, true),
        part("Books", 2500, true),
    ]);
    for income in [0u64, 1, 50000, 90000, 90001, 100000, 125000, 132500, 200000] {
        assert!(conserved(&b, income));
    }
}

#[test]
fn later_fixed_part_waits_for_earlier() {
    let b = budget(vec![part("A", 5000, false), part("B", 5000, false), part("C", 5000, false)]);
    let a = b.allocate(7000);
    assert_eq!(a.fixed, vec![5000, 2000, 0]);
}

#[test]
fn remainder_cents_go_to_first_parts() {
    let b = budget(vec![part("A", 1000, true), part("B", 1000, true), part("C", 1000, true)]);
    let a = b.allocate(100);
    assert_eq!(a.expandable, vec![34, 33, 33]);
    assert_eq!(a.leftover, 0);
}

#[test]
fn unfilled_parts_stay_within_a_cent() {
    let b = budget(vec![part("A", 50, true), part("B", 900, true), part("C", 400, true), part("D", 901, true)]);
    let a = b.allocate(1251);
    assert_eq!(a.expandable, vec![50, 401, 400, 400]);
    assert_eq!(a.leftover, 0);
    for i in 0..4 {
        for j in 0..4 {
            let cap = b.expandable_parts()[i].monthly_value();
            if a.expandable[i] < cap {
                assert!(a.expandable[j] <= a.expandable[i] + 1);
            }
        }
    }
}

#[test]
fn full_parts_leave_leftover() {
    let b = budget(vec![part("Rent", 10000, false), part("Fun", 5000, true)]);
    let a = b.allocate(20000);
    assert_eq!(a.fixed, vec![10000]);
    assert_eq!(a.expandable, vec![5000]);
    assert_eq!(a.leftover, 5000);
}

#[test]
fn bad_length_prefix_is_rejected() {
    assert!(matches!(Budget::decode("abc?false\t\n"), Err(DecodeError::LengthPrefix)));
    assert!(matches!(Budget::decode("12\t\n"), Err(DecodeError::LengthPrefix)));
}

#[test]
fn truncated_name_is_rejected() {
    assert!(matches!(Budget::decode("12?ab1?false\t\n"), Err(DecodeError::TruncatedName)));
    assert!(matches!(Budget::decode("99999999999999999999999?a\t\n"), Err(DecodeError::TruncatedName)));
}

#[test]
fn bad_monthly_value_is_rejected() {
    assert!(matches!(Budget::decode("1?a?false\t\n"), Err(DecodeError::MonthlyValue)));
    assert!(matches!(Budget::decode("1?a1.2.3?false\t\n"), Err(DecodeError::MonthlyValue)));
}

#[test]
fn bad_flag_is_rejected() {
    assert!(matches!(Budget::decode("1?a1?yes\t\n"), Err(DecodeError::Flag)));
    assert!(matches!(Budget::decode("\n1?a1\t"), Err(DecodeError::Flag)));
}

#[test]
fn part_stays_in_section_where_it_stands() {
    let b = Budget::decode("1?A5?true\t\n1?B2?false\t").unwrap();
    assert_eq!(b.parts().len(), 1);
    assert_eq!(b.parts()[0].name(), "A");
    assert_eq!(b.parts()[0].monthly_value(), 500);
    assert!(b.parts()[0].expandable());
    assert_eq!(b.expandable_parts().len(), 1);
    assert_eq!(b.expandable_parts()[0].name(), "B");
    assert!(!b.expandable_parts()[0].expandable());
    assert_eq!(b.encode(), "1?A5?true\t\n1?B2?false\t");
}

#[test]
fn unterminated_record_is_ignored() {
    let b = Budget::decode("1?a1?false\t1?b2?false").unwrap();
    assert_eq!(b.parts().len(), 1);
    assert_eq!(b.parts()[0].name(), "a");
    assert_eq!(b.expandable_parts().len(), 0);
}

#[test]
fn amounts_parse_to_cents() {
    let c = |s: &str| parse_amount(&s.chars().collect());
    assert_eq!(c("12.5"), Some(1250));
    assert_eq!(c("12."), Some(1200));
    assert_eq!(c(".07"), Some(7));
    assert_eq!(c("1.239"), Some(123));
    assert_eq!(c("184467440737095516.15"), Some(u64::MAX));
    assert_eq!(c("184467440737095516.16"), None);
    assert_eq!(c("."), None);
    assert_eq!(c(""), None);
    assert_eq!(c("1a"), None);
}

#[test]
fn shell_values_are_validated() {
    assert!(is_number_value(String::from("250.75")).is_ok());
    assert_eq!(
        is_number_value(String::from("ten")),
        Err(String::from("The provided value is not a valid number."))
    );
    assert!(is_bool_value(String::from("true")).is_ok());
    assert!(is_bool_value(String::from("false")).is_ok());
    assert_eq!(
        is_bool_value(String::from("True")),
        Err(String::from("The provided value is not a boolean value."))
    );
}

#[test]
fn yearly_amount_becomes_monthly() {
    assert_eq!(from_year_to_months(120000), 10000);
    assert_eq!(from_year_to_months(100), 8);
}

#[test]
fn report_lists_fixed_then_expandable_then_leftover() {
    let b = budget(vec![part("Fun", 5000, true), part("Rent", 10000, false), part("Books", 2000, true)]);
    let rows = b.report(20000);
    let got: Vec<(String, u64)> = rows.into_iter().map(|r| (r.name, r.amount)).collect();
    assert_eq!(
        got,
        vec![
            (String::from("Rent"), 10000),
            (String::from("Fun"), 5000),
            (String::from("Books"), 2000),
            (String::from("Leftover Money"), 3000),
        ]
    );
}

#[test]
fn shell_commands_change_budget() {
    let mut b = Budget::new();
    let insert = Command::Insert { name: String::from("Rent"), yearly_value: 120000, expandable: false };
    assert!(!b.run_command(insert));
    assert!(!b.run_command(Command::Insert { name: String::from("Fun"), yearly_value: 1000, expandable: true }));
    assert!(!b.run_command(Command::Preview));
    assert!(!b.run_command(Command::Calculate { income: 500 }));
    assert_eq!(b.parts().len(), 1);
    assert_eq!(b.parts()[0].monthly_value(), 10000);
    assert_eq!(b.expandable_parts()[0].monthly_value(), 83);
    assert!(b.run_command(Command::Exit));
    assert_eq!(b.encode(), "4?Rent100?false\t\n3?Fun0.83?true\t");
}

#[test]
fn preview_lists_fixed_then_expandable() {
    let b = budget(vec![part("Fun", 5000, true), part("Rent", 10000, false), part("Books", 2050, true)]);
    let got: Vec<(String, u64, bool)> =
        b.preview().into_iter().map(|r| (r.name, r.monthly_value, r.expandable)).collect();
    assert_eq!(
        got,
        vec![
            (String::from("Rent"), 10000, false),
            (String::from("Fun"), 5000, true),
            (String::from("Books"), 2050, true),
        ]
    );
}
