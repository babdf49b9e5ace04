use cloak::hidden::set_flag_bit;

#[test]
fn setting_the_hidden_bit_keeps_other_flags() {
    let flags: u32 = 0x0101;
    let mask: u32 = 0x8000;
    let hidden = set_flag_bit(flags, mask, true);
    assert_eq!(hidden, 0x8101);
    let restored = set_flag_bit(hidden, mask, false);
    assert_eq!(restored, flags);
}

#[test]
fn clearing_an_unset_bit_changes_nothing() {
    let flags: u32 = 0x0004;
    assert_eq!(set_flag_bit(flags, 0x2, false), flags);
    assert_eq!(set_flag_bit(flags, 0x2, true), 0x0006);
}
