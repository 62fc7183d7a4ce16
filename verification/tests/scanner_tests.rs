use std::collections::VecDeque;

use lexscan::scanner::{ScanError, Scanner, ScannerAction};
use lexscan::{Action, Token, TokenScanner};

#[derive(Debug, Clone, PartialEq)]
enum Expr {
    Nop,
    MovC2R(u8, String),
}

#[test]
fn full() {
    let mut scanner = TokenScanner::new(vec![
        Token::Ident("nop".to_string()),
        Token::Ident("mov".to_string()),
        Token::Ident("mov".to_string()),
        Token::Literal(3),
        Token::Ident("r0".to_string()),
    ]);

    let expr = scanner.scan(|toks: &[Token]| match toks {
        [Token::Ident(op)] if op == "nop" => Some(Action::Return(Expr::Nop)),

        [Token::Ident(op)] if op == "mov" => Some(Action::Require),
        [Token::Ident(op), Token::Literal(_)] if op == "mov" => Some(Action::Require),
        [Token::Ident(op), Token::Literal(value), Token::Ident(reg)] if op == "mov" => {
            Some(Action::Return(Expr::MovC2R(*value, reg.clone())))
        }

        _ => None,
    });

    assert_eq!(expr, Ok(Some(Expr::Nop)));
}

#[test]
fn full_scan_assembles_each_instruction() {
    let mut scanner = TokenScanner::new(vec![
        Token::Ident("mov".to_string()),
        Token::Literal(3),
        Token::Ident("r0".to_string()),
    ]);
    let matcher = |toks: &[Token]| match toks {
        [Token::Ident(op)] if op == "nop" => Some(Action::Return(Expr::Nop)),
        [Token::Ident(op)] if op == "mov" => Some(Action::Require),
        [Token::Ident(op), Token::Literal(_)] if op == "mov" => Some(Action::Require),
        [Token::Ident(op), Token::Literal(value), Token::Ident(reg)] if op == "mov" => {
            Some(Action::Return(Expr::MovC2R(*value, reg.clone())))
        }
        _ => None,
    };
    let expr = scanner.scan(matcher);
    assert_eq!(expr, Ok(Some(Expr::MovC2R(3, "r0".to_string()))));
    assert!(scanner.is_done());
}

#[test]
fn token_scanner_cursor_primitives() {
    let mut scanner = TokenScanner::new(vec![Token::Literal(1), Token::Literal(2)]);
    assert!(!scanner.is_done());
    assert_eq!(scanner.peek(), Some(&Token::Literal(1)));
    assert_eq!(scanner.pop(), Some(Token::Literal(1)));
    assert_eq!(scanner.pop(), Some(Token::Literal(2)));
    assert_eq!(scanner.pop(), None);
    assert!(scanner.is_done());
}

#[test]
fn rejected_scan_restores_the_input() {
    let toks: VecDeque<u32> = VecDeque::from(vec![7, 8, 9]);
    let mut scanner = Scanner::new(toks);
    let reject = |_p: &[u32]| -> Option<ScannerAction<u32>> { None };
    assert_eq!(scanner.scan(&reject), Ok(None));
    assert_eq!(scanner.pop(), Some(7));
    assert_eq!(scanner.pop(), Some(8));
    assert_eq!(scanner.pop(), Some(9));
    assert_eq!(scanner.pop(), None);
}

#[test]
fn rollback_keeps_only_the_accepted_prefix() {
    // Accept two elements provisionally; the third probe is rejected and
    // rolled back for later consumers.
    let toks: VecDeque<u32> = VecDeque::from(vec![1, 2, 3]);
    let mut scanner = Scanner::new(toks);
    let pairs = |p: &[u32]| -> Option<ScannerAction<u32>> {
        if p.len() == 1 {
            Some(ScannerAction::Require)
        } else if p.len() == 2 {
            Some(ScannerAction::Request(p[0] * 10 + p[1]))
        } else {
            None
        }
    };
    assert_eq!(scanner.scan(&pairs), Ok(Some(12)));
    assert_eq!(scanner.pop(), Some(3));
    assert_eq!(scanner.pop(), None);
}

#[test]
fn scan_reports_unmet_extension_obligations() {
    let toks: VecDeque<u32> = VecDeque::from(vec![5]);
    let mut scanner = Scanner::new(toks);
    let always_more = |_p: &[u32]| -> Option<ScannerAction<u32>> { Some(ScannerAction::Require) };
    assert_eq!(scanner.scan(&always_more), Err(ScanError::UnexpectedEnd));

    let toks: VecDeque<u32> = VecDeque::from(vec![5, 6]);
    let mut scanner = Scanner::new(toks);
    let one_then_fail = |p: &[u32]| -> Option<ScannerAction<u32>> {
        if p.len() == 1 {
            Some(ScannerAction::Require)
        } else {
            None
        }
    };
    assert_eq!(scanner.scan(&one_then_fail), Err(ScanError::UnexpectedToken));
}

#[test]
fn scanner_cursor_primitives() {
    let toks: VecDeque<char> = VecDeque::from(vec!['a', '1', 'b']);
    let mut scanner = Scanner::new(toks);
    assert!(!scanner.is_done());
    assert_eq!(scanner.peek(), Some(&'a'));
    assert!(scanner.test(|c: &char| c.is_alphabetic()));
    assert_eq!(scanner.take(|c: &char| *c == 'z'), None);
    assert_eq!(scanner.take(|c: &char| *c == 'a'), Some('a'));
    assert_eq!(scanner.transform(|c: &char| c.to_digit(10)), Some(1));
    assert_eq!(scanner.transform(|c: &char| c.to_digit(10)), None);
    assert_eq!(scanner.take_while(|c: &char| c.is_alphabetic()), vec!['b']);
    assert!(scanner.is_done());
    assert_eq!(scanner.peek(), None);
    assert!(!scanner.test(|_c: &char| true));
}

#[test]
fn take_while_stops_at_first_failure() {
    let toks: VecDeque<u32> = VecDeque::from(vec![2, 4, 5, 6]);
    let mut scanner = Scanner::new(toks);
    assert_eq!(scanner.take_while(|n: &u32| n % 2 == 0), vec![2, 4]);
    assert_eq!(scanner.pop(), Some(5));
}

#[test]
fn collect_gathers_results_until_rejection() {
    let toks: VecDeque<u32> = VecDeque::from(vec![1, 2, 3, 9, 4]);
    let mut scanner = Scanner::new(toks);
    let small = |p: &[u32]| -> Option<ScannerAction<u32>> {
        if p.len() == 1 && p[0] < 9 {
            Some(ScannerAction::Return(p[0] + 100))
        } else {
            None
        }
    };
    assert_eq!(scanner.collect(&small), Ok(vec![101, 102, 103]));
    assert_eq!(scanner.pop(), Some(9));
}

#[test]
fn collect_propagates_the_first_error() {
    let toks: VecDeque<u32> = VecDeque::from(vec![1, 2]);
    let mut scanner = Scanner::new(toks);
    let odd_only = |p: &[u32]| -> Option<ScannerAction<u32>> {
        if p[p.len() - 1] % 2 == 1 {
            Some(ScannerAction::Require)
        } else {
            None
        }
    };
    assert_eq!(scanner.collect(&odd_only), Err(ScanError::UnexpectedToken));
}
