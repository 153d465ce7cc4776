use chain_engine::address::{Address, FriendlyAddressError};

fn address_from_hex(text: &str) -> Address {
    let bytes = hex::decode(text).unwrap();
    Address::from_slice(&bytes)
}

#[test]
fn it_computes_friendly_addresses() {
    let mut addr = Address([0u8; Address::SIZE]);
    assert_eq!(addr.to_user_friendly_address(), "NQ07 0000 0000 0000 0000 0000 0000 0000 0000");

    addr = address_from_hex("e9910f2452419823dc2e5534633210074ae9527f");
    assert_eq!(addr.to_user_friendly_address(), "NQ97 V68G X92J 86C2 7P1E ALS6 6CGG 0V5E JLKY");

    addr = address_from_hex("2987c28c1ff373ba1e18a9a2efe6dc101ee25ed9");
    assert_eq!(addr.to_user_friendly_address(), "NQ05 563U 530Y XDRT L7GQ M6HE YRNU 20FE 4PNR");

    let addr2 = Address::from_user_friendly_address(
        &"NQ05 563U 530Y XDRT L7GQ M6HE YRNU 20FE 4PNR".to_string(),
    )
    .unwrap();
    assert_eq!(addr.0, addr2.0);
    assert_eq!(addr.to_user_friendly_address(), addr2.to_user_friendly_address());
}

#[test]
fn friendly_address_round_trip() {
    let addr = address_from_hex("e9910f2452419823dc2e5534633210074ae9527f");
    let text = addr.to_user_friendly_address();
    assert_eq!(text.len(), 44);
    assert_eq!(text.chars().filter(|c| *c == ' ').count(), 8);
    assert_eq!(Address::from_user_friendly_address(&text).unwrap(), addr);
}

#[test]
fn friendly_address_errors() {
    let wrong_code = "DE97 V68G X92J 86C2 7P1E ALS6 6CGG 0V5E JLKY".to_string();
    assert_eq!(
        Address::from_user_friendly_address(&wrong_code),
        Err(FriendlyAddressError::WrongCountryCode)
    );
    let too_short = "NQ97 V68G X92J 86C2 7P1E ALS6 6CGG 0V5E".to_string();
    assert_eq!(
        Address::from_user_friendly_address(&too_short),
        Err(FriendlyAddressError::WrongLength)
    );
    let bad_sum = "NQ98 V68G X92J 86C2 7P1E ALS6 6CGG 0V5E JLKY".to_string();
    assert_eq!(
        Address::from_user_friendly_address(&bad_sum),
        Err(FriendlyAddressError::InvalidChecksum)
    );
}

#[test]
fn iban_check_of_digits() {
    assert_eq!(Address::iban_check(&"98".to_string()), 1);
    assert_eq!(Address::iban_check(&"A".to_string()), 10);
    assert_eq!(Address::iban_check(&"a1".to_string()), 4);
}
