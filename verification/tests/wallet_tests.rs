use sui_core::base_types::{ObjectID, SuiAddress};
use sui_core::storage::{ObjectRecord, Owner};
use sui_core::wallet_commands::{
    unwrap_err_to_string, GasChoice, WalletContext, WalletError,
};

fn address(last: u8) -> SuiAddress {
    let mut bytes = vec![0u8; 20];
    bytes[19] = last;
    SuiAddress::new(bytes)
}

fn object_id(last: u8) -> ObjectID {
    let mut bytes = vec![0u8; 20];
    bytes[19] = last;
    ObjectID::new(bytes)
}

fn gas_entry(last: u8, value: u64) -> (u64, ObjectRecord) {
    let record =
        ObjectRecord::new(object_id(last), Owner::AddressOwner(address(1)), vec![], b"Coin".to_vec());
    (value, record)
}

#[test]
fn active_address_requires_a_managed_address() {
    let mut context = WalletContext::new(vec![], None);
    assert!(matches!(context.active_address(), Err(WalletError::NoManagedAddresses)));
}

#[test]
fn active_address_defaults_to_the_first_account() {
    let mut context = WalletContext::new(vec![address(7), address(8)], None);
    let chosen = context.active_address().unwrap();
    assert_eq!(chosen.bytes, address(7).bytes);
    // The choice sticks.
    assert_eq!(context.active_address.as_ref().unwrap().bytes, address(7).bytes);
}

#[test]
fn active_address_keeps_an_explicit_choice() {
    let mut context = WalletContext::new(vec![address(7), address(8)], Some(address(8)));
    let chosen = context.active_address().unwrap();
    assert_eq!(chosen.bytes, address(8).bytes);
}

#[test]
fn gas_for_owner_budget_picks_the_first_fitting_object() {
    let context = WalletContext::new(vec![address(1)], None);
    let objects = vec![gas_entry(1, 50), gas_entry(2, 200), gas_entry(3, 500)];
    let (value, record) = context.gas_for_owner_budget(&objects, 100, &vec![]).unwrap();
    assert_eq!(value, 200);
    assert_eq!(record.id.bytes, object_id(2).bytes);
}

#[test]
fn gas_for_owner_budget_skips_forbidden_objects() {
    let context = WalletContext::new(vec![address(1)], None);
    let objects = vec![gas_entry(1, 300), gas_entry(2, 300)];
    let forbidden = vec![object_id(1)];
    let (_, record) = context.gas_for_owner_budget(&objects, 100, &forbidden).unwrap();
    assert_eq!(record.id.bytes, object_id(2).bytes);
}

#[test]
fn gas_for_owner_budget_reports_the_missed_budget() {
    let context = WalletContext::new(vec![address(1)], None);
    let objects = vec![gas_entry(1, 50)];
    match context.gas_for_owner_budget(&objects, 100, &vec![]) {
        Err(WalletError::NoGasFound { budget }) => assert_eq!(budget, 100),
        _ => panic!("expected no gas to be found"),
    }
}

#[test]
fn chosen_gas_may_not_be_a_transaction_input() {
    let context = WalletContext::new(vec![address(1)], None);
    let forbidden = vec![object_id(9)];
    match context.choose_gas_for_wallet(Some(object_id(9)), &forbidden) {
        Err(WalletError::GasInTransactionInput { gas }) => {
            assert_eq!(gas.bytes, object_id(9).bytes)
        }
        _ => panic!("expected the specified gas to be refused"),
    }
    assert!(matches!(
        context.choose_gas_for_wallet(Some(object_id(8)), &forbidden),
        Ok(GasChoice::Specified(_))
    ));
    assert!(matches!(
        context.choose_gas_for_wallet(None, &forbidden),
        Ok(GasChoice::SelectByBudget)
    ));
}

#[test]
fn unwrap_err_to_string_formats_values_and_errors() {
    let ok = unwrap_err_to_string(|| Ok::<_, anyhow::Error>(42u64));
    assert_eq!(ok, "42");
    let err = unwrap_err_to_string(|| Err::<u64, _>(anyhow::Error::msg("boom")));
    assert!(err.contains("boom"));
}
