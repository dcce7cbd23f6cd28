use tilewm::hooks::new_client_message;

#[test]
fn new_client_message_names_the_class() {
    assert_eq!(new_client_message(&"firefox".to_string()), "new client with WM_CLASS='firefox'");
    assert_eq!(new_client_message(&String::new()), "new client with WM_CLASS=''");
}
