use zhang::account::{Account, AccountError, AccountType};

fn sample() -> Account {
    Account {
        account_type: AccountType::Assets,
        content: "Assets:A:B".to_string(),
        components: vec!["Assets".to_owned(), "A".to_owned(), "B".to_owned()],
    }
}

#[test]
fn get_parent() {
    let account = sample();
    let parent = account.parent();

    assert_eq!("Assets:A", parent.content);
    assert_eq!(vec!["Assets", "A"], parent.components);
}

#[test]
fn get_leaf() {
    let account = sample();
    assert_eq!("B", account.leaf());
}

#[test]
fn test_join() {
    let account = sample();
    let child = account.join("C");
    assert_eq!("Assets:A:B:C", child.content);
}

#[test]
fn test_components() {
    let account = sample();
    assert_eq!(vec!["Assets", "A", "B"], account.components());
}

#[test]
fn account_from_text_reads_segments() {
    let account = Account::from_text("Liabilities:Card:Visa").unwrap();
    assert_eq!(AccountType::Liabilities, account.account_type);
    assert_eq!("Liabilities:Card:Visa", account.content);
    assert_eq!(vec!["Liabilities", "Card", "Visa"], account.components());
    assert_eq!(-1, account.get_account_sign());
    assert!(account.is_balance_sheet_account());
    assert!(account.is_invert_account());
    assert!(!account.is_root_account());
}

#[test]
fn account_from_text_rejects_unknown_type() {
    assert_eq!(Err(AccountError::InvalidAccount), Account::from_text("Cash:Wallet"));
    assert_eq!(Err(AccountError::InvalidAccount), Account::from_text(""));
}

#[test]
fn account_kinds() {
    let income = Account::from_text("Income:Salary").unwrap();
    assert!(income.is_income() && income.is_income_statement_account() && income.is_invert_account());
    let expenses = Account::from_text("Expenses").unwrap();
    assert!(expenses.is_root_account());
    assert_eq!(1, expenses.get_account_sign());
    assert_eq!("Expenses", expenses.name());
}
