use bidown::decimal::Decimal;
use bidown::model::{Change, ChangeKind, Condition, ConditionKind};

fn decimal(text: &str) -> Decimal {
    Decimal::from_str(text).unwrap()
}

fn kinds(text: &str) -> Vec<ConditionKind> {
    Condition::from_str(text)
        .unwrap()
        .iter()
        .map(|c| c.kind)
        .collect()
}

#[test]
fn test_conditions_deserialize() {
    assert_eq!(
        Condition::from_str("$v1<=1.00 && $v2>2.00"),
        Some(vec![
            Condition {
                kind: ConditionKind::LessEqual,
                id: "$v1".to_string(),
                value: decimal("1.00"),
            },
            Condition {
                kind: ConditionKind::Greater,
                id: "$v2".to_string(),
                value: decimal("2.00"),
            }
        ])
    );
}

#[test]
fn test_changes_deserialize() {
    assert_eq!(
        Change::from_str("$v1=1.00;$v2=$v2+0.50"),
        Some(vec![
            Change {
                kind: ChangeKind::Assign,
                id: "$v1".to_string(),
                value: decimal("1.00"),
            },
            Change {
                kind: ChangeKind::Add,
                id: "$v2".to_string(),
                value: decimal("0.5"),
            }
        ])
    );
}

#[test]
fn conditions_are_read_with_kind_and_value() {
    let read = Condition::from_str("$v1<=1.00 && $v2>2.00").unwrap();
    assert_eq!(read.len(), 2);
    assert_eq!(read[0].kind, ConditionKind::LessEqual);
    assert_eq!(read[0].id, "$v1");
    assert_eq!(read[0].value.units(), 1_000_000);
    assert_eq!(read[1].kind, ConditionKind::Greater);
    assert_eq!(read[1].id, "$v2");
    assert_eq!(read[1].value.units(), 2_000_000);
}

#[test]
fn blank_conditions_are_no_conditions() {
    assert_eq!(Condition::from_str("").unwrap().len(), 0);
    assert_eq!(Condition::from_str("   ").unwrap().len(), 0);
    assert_eq!(Condition::from_str("\t\n").unwrap().len(), 0);
}

#[test]
fn every_sign_is_read_as_itself() {
    assert_eq!(kinds("$a<=1"), vec![ConditionKind::LessEqual]);
    assert_eq!(kinds("$a<1"), vec![ConditionKind::Less]);
    assert_eq!(kinds("$a>=1"), vec![ConditionKind::GreaterEqual]);
    assert_eq!(kinds("$a>1"), vec![ConditionKind::Greater]);
    assert_eq!(kinds("$a!=1"), vec![ConditionKind::NotEqual]);
    assert_eq!(kinds("$a==1"), vec![ConditionKind::Equal]);
}

#[test]
fn a_long_sign_anywhere_wins_over_a_short_one() {
    let read = Condition::from_str("a<b<=1").unwrap();
    assert_eq!(read[0].kind, ConditionKind::LessEqual);
    assert_eq!(read[0].id, "a<b");
    assert_eq!(read[0].value.units(), 1_000_000);
    let read = Condition::from_str("a>=b<1").unwrap();
    assert_eq!(read[0].kind, ConditionKind::Less);
    assert_eq!(read[0].id, "a>=b");
}

#[test]
fn white_space_round_clause_and_sign_does_not_count() {
    let read = Condition::from_str("  $v1  <=  1.00  &&$v2>2.00 ").unwrap();
    assert_eq!(read.len(), 2);
    assert_eq!(read[0].id, "$v1");
    assert_eq!(read[0].value.units(), 1_000_000);
    assert_eq!(read[1].id, "$v2");
    assert_eq!(read[1].value.units(), 2_000_000);
}

#[test]
fn conditions_that_cannot_be_read() {
    assert!(Condition::from_str("$v1").is_none());
    assert!(Condition::from_str("$v1<=").is_none());
    assert!(Condition::from_str("$v1<=abc").is_none());
    assert!(Condition::from_str("$v1<=1 &&").is_none());
    assert!(Condition::from_str("&&").is_none());
    assert!(Condition::from_str("$v1=1").is_none());
    assert!(Condition::from_str("$v1<=1 && $v2").is_none());
    assert!(Condition::from_str("$v1 <= 1 0").is_none());
}

#[test]
fn three_ampersands_cut_after_the_first_two() {
    // The pieces are "$a<1" and "&$b<2"; the second has the id "&$b".
    let read = Condition::from_str("$a<1&&&$b<2").unwrap();
    assert_eq!(read.len(), 2);
    assert_eq!(read[1].id, "&$b");
}

#[test]
fn changes_are_read_with_kind_and_value() {
    let read = Change::from_str("$v1=1.00;$v2=$v2+0.50").unwrap();
    assert_eq!(read.len(), 2);
    assert_eq!(read[0].kind, ChangeKind::Assign);
    assert_eq!(read[0].id, "$v1");
    assert_eq!(read[0].value.units(), 1_000_000);
    assert_eq!(read[1].kind, ChangeKind::Add);
    assert_eq!(read[1].id, "$v2");
    assert_eq!(read[1].value.units(), 500_000);
}

#[test]
fn a_decrement_adds_a_negative_value() {
    let read = Change::from_str("$v=$v-2").unwrap();
    assert_eq!(read.len(), 1);
    assert_eq!(read[0].kind, ChangeKind::Add);
    assert_eq!(read[0].id, "$v");
    assert_eq!(read[0].value.units(), -2_000_000);
}

#[test]
fn blank_changes_are_no_changes() {
    assert_eq!(Change::from_str("").unwrap().len(), 0);
    assert_eq!(Change::from_str("  \t ").unwrap().len(), 0);
}

#[test]
fn white_space_in_changes() {
    let read = Change::from_str(" $v1 = 3 ; $v2 = $v2 +1.5").unwrap();
    assert_eq!(read.len(), 2);
    assert_eq!(read[0].kind, ChangeKind::Assign);
    assert_eq!(read[0].id, "$v1");
    assert_eq!(read[0].value.units(), 3_000_000);
    assert_eq!(read[1].kind, ChangeKind::Add);
    assert_eq!(read[1].id, "$v2");
    assert_eq!(read[1].value.units(), 1_500_000);
}

#[test]
fn signs_behind_the_sign_of_an_increment() {
    let read = Change::from_str("$v=$v+-2").unwrap();
    assert_eq!(read[0].kind, ChangeKind::Add);
    assert_eq!(read[0].value.units(), -2_000_000);
    let read = Change::from_str("$v=$v--2").unwrap();
    assert_eq!(read[0].kind, ChangeKind::Add);
    assert_eq!(read[0].value.units(), 2_000_000);
}

#[test]
fn an_assignment_of_a_negative_value() {
    let read = Change::from_str("$v=-2.5").unwrap();
    assert_eq!(read[0].kind, ChangeKind::Assign);
    assert_eq!(read[0].id, "$v");
    assert_eq!(read[0].value.units(), -2_500_000);
}

#[test]
fn changes_that_cannot_be_read() {
    assert!(Change::from_str("$v").is_none());
    assert!(Change::from_str("$v=").is_none());
    assert!(Change::from_str("$v=$w+1").is_none());
    assert!(Change::from_str("$v=$v*2").is_none());
    assert!(Change::from_str("$v=$v- 2").is_none());
    assert!(Change::from_str("$v=1;").is_none());
    assert!(Change::from_str(";").is_none());
    assert!(Change::from_str("$v=1;$w").is_none());
}

#[test]
fn a_change_is_cut_at_its_first_equals_sign() {
    assert!(Change::from_str("$v==1").is_none());
    let read = Change::from_str("=5").unwrap();
    assert_eq!(read[0].kind, ChangeKind::Assign);
    assert_eq!(read[0].id, "");
    assert_eq!(read[0].value.units(), 5_000_000);
}

#[test]
fn ids_may_hold_any_characters() {
    let read = Condition::from_str("变量一>=3").unwrap();
    assert_eq!(read[0].id, "变量一");
    assert_eq!(read[0].kind, ConditionKind::GreaterEqual);
    let read = Change::from_str("变量一=变量一+1").unwrap();
    assert_eq!(read[0].id, "变量一");
    assert_eq!(read[0].kind, ChangeKind::Add);
    assert_eq!(read[0].value.units(), 1_000_000);
}
