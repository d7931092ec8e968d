use ex_grapha_core::util::{format_node_id, generate_node_id, now_iso8601, os_username};

#[test]
fn format_node_id_pads_to_six_digits() {
    assert_eq!(format_node_id(0), "n-000000");
    assert_eq!(format_node_id(0xabc), "n-000abc");
    assert_eq!(format_node_id(0x4a7b2c), "n-4a7b2c");
    assert_eq!(format_node_id(0xffffff), "n-ffffff");
}

#[test]
fn generated_ids_have_the_node_id_shape() {
    for _ in 0..50 {
        let id = generate_node_id();
        assert_eq!(id.len(), 8);
        assert!(id.starts_with("n-"));
        assert!(id[2..].chars().all(|c| c.is_ascii_digit() || ('a'..='f').contains(&c)));
    }
}

#[test]
fn timestamps_are_iso8601_utc() {
    let t = now_iso8601();
    assert_eq!(t.len(), 20);
    assert!(t.ends_with('Z'));
    assert_eq!(&t[4..5], "-");
    assert_eq!(&t[10..11], "T");
}

#[test]
fn username_is_available() {
    let _ = os_username();
}
