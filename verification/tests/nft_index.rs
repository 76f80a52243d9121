use subscription::nft::NFTContract;

#[test]
fn test_mint_function() {
    let mut c = NFTContract::new();
    let creator = "GCREATOR".to_string();
    let user = "GUSER".to_string();

    assert_eq!(c.mint(&user, 0), 0);
    assert_eq!(c.tokens_of_owner(&user).len(), 1);

    assert_eq!(c.mint(&user, 1), 1);
    assert_eq!(c.tokens_of_owner(&user), vec![0, 1]);

    assert_eq!(c.tokens_of_owner(&creator).len(), 0);
}

#[test]
fn owners_have_separate_lists() {
    let mut c = NFTContract::new();
    c.mint(&"GA".to_string(), 0);
    c.mint(&"GB".to_string(), 1);
    c.mint(&"GA".to_string(), 2);
    assert_eq!(c.tokens_of_owner(&"GA".to_string()), vec![0, 2]);
    assert_eq!(c.tokens_of_owner(&"GB".to_string()), vec![1]);
}

#[test]
fn stored_owner_list_is_extended_by_mint() {
    let owner = "GOWNER".to_string();
    let mut c = NFTContract::with_owner(&owner, vec![3, 5]);
    assert_eq!(c.tokens_of_owner(&owner), vec![3, 5]);
    assert_eq!(c.tokens_of_owner(&"GOTHER".to_string()), Vec::<u32>::new());
    assert_eq!(c.mint(&owner, 8), 8);
    assert_eq!(c.tokens_of_owner(&owner), vec![3, 5, 8]);
}
