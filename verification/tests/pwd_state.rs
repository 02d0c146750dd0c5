use mac_shell::pwd_state::PwdState;

#[test]
fn state_keeps_both_directories() {
    let mut st = PwdState::new("/a".to_string(), "/b".to_string());
    assert_eq!(st.get_current_dir(), "/a");
    assert_eq!(st.get_old_dir(), "/b");
    st.set_states("/c".to_string(), "/a".to_string());
    assert_eq!(st.get_current_dir(), "/c");
    assert_eq!(st.get_old_dir(), "/a");
}
