//! Identity helpers, logging keys, paths, and the dice expression parser.

use cluster_core::dice::{parse_dice_expression, Operator};
use cluster_core::utils::{
    fallback_instance_id, get_ticket_template_path, log_channel_key, u64_to_decimal,
    ClusterConfig, ClusterInfo, LogEventType, DEFAULT_PRIORITY,
};

#[test]
fn decimal_rendering() {
    assert_eq!(u64_to_decimal(0), "0");
    assert_eq!(u64_to_decimal(7), "7");
    assert_eq!(u64_to_decimal(10), "10");
    assert_eq!(u64_to_decimal(90210), "90210");
    assert_eq!(u64_to_decimal(u64::MAX), "18446744073709551615");
}

#[test]
fn ticket_template_path_per_guild() {
    assert_eq!(get_ticket_template_path(42), "./ticket_templates/42.txt");
    assert_eq!(get_ticket_template_path(0), "./ticket_templates/0.txt");
}

#[test]
fn fallback_identity_uses_the_drawn_value() {
    assert_eq!(fallback_instance_id(7), "instance-7");
    assert_eq!(fallback_instance_id(123456789), "instance-123456789");
}

#[test]
fn default_priority_is_the_baseline() {
    let cfg = ClusterConfig {
        cluster: ClusterInfo { instance_id: "a".to_owned(), priority: DEFAULT_PRIORITY },
    };
    assert_eq!(cfg.cluster.priority, 1);
}

#[test]
fn log_channel_keys() {
    assert_eq!(log_channel_key(LogEventType::BootQuit), "boot_quit_channel");
    assert_eq!(log_channel_key(LogEventType::MemberJoinLeave), "member_log_channel");
    assert_eq!(log_channel_key(LogEventType::TicketActivity), "ticket_log_channel");
    assert_eq!(log_channel_key(LogEventType::Moderation), "mod_log_channel");
    assert_eq!(log_channel_key(LogEventType::Default), "logging_channel");
    assert_eq!(log_channel_key(LogEventType::Announcements), "announcement_channel");
    assert_eq!(log_channel_key(LogEventType::MessageDeletion), "message_log_channel");
}

#[test]
fn plain_dice_expression_has_no_operations() {
    let (dice, ops) = parse_dice_expression("1d6");
    assert_eq!(dice, "1d6");
    assert_eq!(ops, None);
}

#[test]
fn single_operation() {
    let (dice, ops) = parse_dice_expression("2d6+3");
    assert_eq!(dice, "2d6");
    assert_eq!(ops, Some(vec![Operator::Add(3)]));
}

#[test]
fn chained_operations() {
    let (dice, ops) = parse_dice_expression("3d7*2-1/4");
    assert_eq!(dice, "3d7");
    assert_eq!(
        ops,
        Some(vec![Operator::Multiply(2), Operator::Subtract(1), Operator::Divide(4)])
    );
}

#[test]
fn double_minus_makes_a_negative_operand() {
    let (dice, ops) = parse_dice_expression("1d6--3");
    assert_eq!(dice, "1d6");
    assert_eq!(ops, Some(vec![Operator::Subtract(-3)]));
}

#[test]
fn operator_without_digits_is_dropped() {
    let (dice, ops) = parse_dice_expression("2d6+");
    assert_eq!(dice, "2d6");
    assert_eq!(ops, None);

    let (dice, ops) = parse_dice_expression("2d6+x*5");
    assert_eq!(dice, "2d6");
    assert_eq!(ops, Some(vec![Operator::Multiply(5)]));
}

#[test]
fn operand_overflowing_i32_is_dropped() {
    let (_, ops) = parse_dice_expression("1d6+2147483648");
    assert_eq!(ops, None);
    let (_, ops) = parse_dice_expression("1d6+2147483647");
    assert_eq!(ops, Some(vec![Operator::Add(2147483647)]));
    let (_, ops) = parse_dice_expression("1d6--2147483648");
    assert_eq!(ops, Some(vec![Operator::Subtract(i32::MIN)]));
    let (_, ops) = parse_dice_expression("1d6--2147483649");
    assert_eq!(ops, None);
    let (_, ops) = parse_dice_expression("1d6+99999999999999999999999");
    assert_eq!(ops, None);
}

#[test]
fn expression_with_only_operations_has_empty_dice_part() {
    let (dice, ops) = parse_dice_expression("+5");
    assert_eq!(dice, "");
    assert_eq!(ops, Some(vec![Operator::Add(5)]));
}
